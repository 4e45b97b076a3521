//! Search for proof-of-work nonces.
//!
//! The device tries nonces in batches.  Its threads write the nonces that they find into
//! a list of candidates, and the least of those is taken.

use crate::blake2s_hash::Blake2sHash;
use crate::byte_order;
use crate::byte_order::push_le32;
use crate::kernel;
use crate::kernel::{groups_for, whole, Arg, Kernel, Plan, Source};
use vstd::prelude::*;

verus! {

/// Number of nonces that a thread tries.
pub const BATCH_SIZE: u32 = 1024;

/// Number of threads of a batch.
pub const THREADS_PER_BATCH: u64 = 16384;

/// Number of candidates that a batch can collect.
pub const MAX_GRIND_CANDIDATES: usize = 64;

/// Number of the last batch that is tried.
pub const LAST_BATCH: u64 = 1000;

/// Least number of bits for which the device is used.
pub const MIN_GPU_POW_BITS: u32 = 10;

/// Largest number of bits that can be asked for.
pub const MAX_POW_BITS: u32 = 32;

/// What is hashed before the search: a prefix, twelve zero bytes, the digest and the number
/// of bits.
pub open spec fn pow_preimage(prefix: u32, digest: Seq<u8>, pow_bits: u32) -> Seq<u8> {
    byte_order::le32(prefix) + Seq::new(12, |i: int| 0u8) + digest + byte_order::le32(pow_bits)
}

/// What is hashed before the search.
pub fn pow_prefix_preimage(prefix: u32, digest: Blake2sHash, pow_bits: u32) -> (r: Vec<u8>)
    ensures
        r@ == pow_preimage(prefix, digest.0@, pow_bits),
{
    let mut bytes: Vec<u8> = Vec::new();
    push_le32(&mut bytes, prefix);
    let zeros: [u8; 12] = [0; 12];
    bytes.extend_from_slice(&zeros);
    bytes.extend_from_slice(&digest.0);
    push_le32(&mut bytes, pow_bits);
    assert(bytes@ =~= pow_preimage(prefix, digest.0@, pow_bits));
    bytes
}

/// The first nonce of a batch.
pub open spec fn start_nonce(batch_id: int) -> int {
    batch_id * THREADS_PER_BATCH * BATCH_SIZE
}

/// The search through a batch, as work for the device; the candidates are in buffer 1 and
/// their number in buffer 2.
pub open spec fn grind_plan(
    digest_words: Seq<u32>,
    pow_bits: u32,
    batch_id: int,
    is_m31_output: bool,
) -> kernel::PlanView {
    kernel::PlanView {
        buffers: seq![
            kernel::SourceView::Words(digest_words),
            kernel::SourceView::Fresh(512),
            kernel::SourceView::Words(seq![0u32]),
        ],
        dispatches: seq![
            kernel::DispatchView {
                kernel: Kernel::Grind,
                args: seq![
                    kernel::spec_whole(0),
                    kernel::spec_whole(1),
                    kernel::spec_whole(2),
                    Arg::U32(pow_bits),
                    Arg::U64(start_nonce(batch_id) as u64),
                    Arg::U32(BATCH_SIZE),
                    Arg::Flag(is_m31_output),
                ],
                grid: kernel::spec_groups_for(THREADS_PER_BATCH),
            },
        ],
    }
}

/// Plans the search through a batch.
pub fn plan_grind_batch(
    prefixed_digest: Blake2sHash,
    pow_bits: u32,
    batch_id: u64,
    is_m31_output: bool,
) -> (r: Plan)
    requires
        batch_id <= LAST_BATCH,
    ensures
        r@.wf(),
        forall|words: Seq<u32>|
            prefixed_digest.has_words(words) ==> r@ == #[trigger] grind_plan(
                words,
                pow_bits,
                batch_id as int,
                is_m31_output,
            ),
{
    let words = prefixed_digest.words();
    let mut digest_words: Vec<u32> = Vec::new();
    digest_words.extend_from_slice(&words);
    assert(digest_words@ =~= words@);
    let start: u64 = batch_id * THREADS_PER_BATCH * (BATCH_SIZE as u64);
    let count: Vec<u32> = vec![0];
    assert(count@ =~= seq![0u32]);
    let mut plan = Plan::new();
    let digest: usize = plan.add_buffer(Source::Words(digest_words));
    let candidates: usize = plan.add_buffer(Source::Fresh((MAX_GRIND_CANDIDATES as u64) * 8));
    let found: usize = plan.add_buffer(Source::Words(count));
    let args = vec![
        whole(digest),
        whole(candidates),
        whole(found),
        Arg::U32(pow_bits),
        Arg::U64(start),
        Arg::U32(BATCH_SIZE),
        Arg::Flag(is_m31_output),
    ];
    let ghost expected = grind_plan(words@, pow_bits, batch_id as int, is_m31_output);
    assert(args@ =~= expected.dispatches[0].args);
    plan.dispatch(Kernel::Grind, args, groups_for(THREADS_PER_BATCH));
    assert(plan@ =~= expected);
    proof {
        assert forall|other: Seq<u32>| prefixed_digest.has_words(other) implies plan@
            == #[trigger] grind_plan(other, pow_bits, batch_id as int, is_m31_output) by {
            byte_order::lemma_le_words_injective(other, words@);
        }
    }
    plan
}

/// What a batch found: the number of nonces, and the first of them.
pub struct GrindBatch {
    pub count: u32,
    pub candidates: Vec<u64>,
}

/// Number of candidates that were written.
pub open spec fn written(count: u32) -> int {
    if count < MAX_GRIND_CANDIDATES {
        count as int
    } else {
        MAX_GRIND_CANDIDATES as int
    }
}

/// A batch's list holds the candidates that were written.
pub open spec fn batch_ok(batch: GrindBatch) -> bool {
    batch.candidates.len() >= written(batch.count)
}

/// `nonce` is the least of the candidates that were written.
pub open spec fn is_least(batch: GrindBatch, nonce: u64) -> bool {
    &&& exists|i: int| 0 <= i < written(batch.count) && #[trigger] batch.candidates[i] == nonce
    &&& forall|i: int| 0 <= i < written(batch.count) ==> nonce <= #[trigger] batch.candidates[i]
}

/// What to do after a batch.
#[derive(Debug, Clone, Copy, PartialEq, Eq, Structural)]
pub enum GrindStep {
    /// A nonce was found.
    Found(u64),
    /// Nothing was found; this batch is next.
    Next(u64),
    /// Nothing was found in this many batches, and none is left.
    Failed(u64),
}

/// Decides what to do after batch `batch_id`.
pub fn grind_step(batch_id: u64, batch: &GrindBatch) -> (r: GrindStep)
    requires
        batch_id <= LAST_BATCH,
        batch_ok(*batch),
    ensures
        batch.count > 0 <==> r is Found,
        r matches GrindStep::Found(nonce) ==> is_least(*batch, nonce),
        batch.count == 0 ==> r == (if batch_id < LAST_BATCH {
            GrindStep::Next((batch_id + 1) as u64)
        } else {
            GrindStep::Failed((batch_id + 1) as u64)
        }),
{
    if batch.count > 0 {
        let n: usize = if (batch.count as usize) < MAX_GRIND_CANDIDATES {
            batch.count as usize
        } else {
            MAX_GRIND_CANDIDATES
        };
        let mut least: u64 = batch.candidates[0];
        for i in 1..n
            invariant
                n == written(batch.count),
                n >= 1,
                batch_ok(*batch),
                exists|k: int| 0 <= k < i && #[trigger] batch.candidates[k] == least,
                forall|k: int| 0 <= k < i ==> least <= #[trigger] batch.candidates[k],
        {
            if batch.candidates[i] < least {
                least = batch.candidates[i];
            }
        }
        return GrindStep::Found(least);
    }
    if batch_id + 1 > LAST_BATCH {
        GrindStep::Failed(batch_id + 1)
    } else {
        GrindStep::Next(batch_id + 1)
    }
}

/// The device, or the processor, searches for the nonce.
pub open spec fn uses_device(pow_bits: u32, available: bool) -> bool {
    pow_bits >= MIN_GPU_POW_BITS && available
}

/// Whether the device searches for a nonce with so many bits.
pub fn grind_on_device(pow_bits: u32, available: bool) -> (r: bool)
    ensures
        r == uses_device(pow_bits, available),
{
    pow_bits >= MIN_GPU_POW_BITS && available
}

/// A run found nothing in the batch.
pub open spec fn batch_empty<F: Fn(Plan) -> GrindBatch>(
    run: F,
    digest_words: Seq<u32>,
    pow_bits: u32,
    is_m31_output: bool,
    batch_id: int,
) -> bool {
    exists|plan: Plan, batch: GrindBatch|
        plan@ == grind_plan(digest_words, pow_bits, batch_id, is_m31_output)
            && #[trigger] call_ensures(run, (plan,), batch) && batch.count == 0
}

/// A run found the nonce in the batch.
pub open spec fn batch_gives<F: Fn(Plan) -> GrindBatch>(
    run: F,
    digest_words: Seq<u32>,
    pow_bits: u32,
    is_m31_output: bool,
    batch_id: int,
    nonce: u64,
) -> bool {
    exists|plan: Plan, batch: GrindBatch|
        plan@ == grind_plan(digest_words, pow_bits, batch_id, is_m31_output)
            && #[trigger] call_ensures(run, (plan,), batch) && is_least(batch, nonce)
}

/// All batches before `last` found nothing.
pub open spec fn empty_before<F: Fn(Plan) -> GrindBatch>(
    run: F,
    digest_words: Seq<u32>,
    pow_bits: u32,
    is_m31_output: bool,
    last: int,
) -> bool {
    forall|b: int|
        0 <= b < last ==> #[trigger] batch_empty(run, digest_words, pow_bits, is_m31_output, b)
}

/// The nonce comes from the first batch that found one.
pub open spec fn first_found<F: Fn(Plan) -> GrindBatch>(
    run: F,
    digest_words: Seq<u32>,
    pow_bits: u32,
    is_m31_output: bool,
    nonce: u64,
) -> bool {
    exists|last: int|
        0 <= last <= LAST_BATCH && #[trigger] empty_before(
            run,
            digest_words,
            pow_bits,
            is_m31_output,
            last,
        ) && batch_gives(run, digest_words, pow_bits, is_m31_output, last, nonce)
}

/// What a search gives: the nonce of the first batch that found one, or none where no batch
/// did.
pub open spec fn grind_outcome<F: Fn(Plan) -> GrindBatch>(
    run: F,
    digest_words: Seq<u32>,
    pow_bits: u32,
    is_m31_output: bool,
    r: Option<u64>,
) -> bool {
    match r {
        Some(nonce) => first_found(run, digest_words, pow_bits, is_m31_output, nonce),
        None => empty_before(run, digest_words, pow_bits, is_m31_output, LAST_BATCH + 1),
    }
}

/// A runner can be given the plan of a batch, and then gives the candidates that were written.
pub open spec fn takes_batch<F: Fn(Plan) -> GrindBatch>(
    run: F,
    digest_words: Seq<u32>,
    pow_bits: u32,
    is_m31_output: bool,
    batch_id: int,
) -> bool {
    &&& forall|plan: Plan|
        plan@ == grind_plan(digest_words, pow_bits, batch_id, is_m31_output)
            ==> #[trigger] call_requires(run, (plan,))
    &&& forall|plan: Plan, batch: GrindBatch|
        plan@ == grind_plan(digest_words, pow_bits, batch_id, is_m31_output)
            && #[trigger] call_ensures(run, (plan,), batch) ==> batch_ok(batch)
}

/// A runner can be given the plan of each batch before which all found nothing.
pub open spec fn takes_batches<F: Fn(Plan) -> GrindBatch>(
    run: F,
    digest_words: Seq<u32>,
    pow_bits: u32,
    is_m31_output: bool,
) -> bool {
    forall|b: int|
        0 <= b <= LAST_BATCH && empty_before(run, digest_words, pow_bits, is_m31_output, b)
            ==> #[trigger] takes_batch(run, digest_words, pow_bits, is_m31_output, b)
}

/// What a search from a digest gives: the outcome for the words of the hash that the digest
/// with its prefix has.
pub open spec fn grind_result<H: Fn(Vec<u8>) -> Blake2sHash, F: Fn(Plan) -> GrindBatch>(
    hash: H,
    run: F,
    prefix: u32,
    digest: Seq<u8>,
    pow_bits: u32,
    is_m31_output: bool,
    r: Option<u64>,
) -> bool {
    exists|bytes: Vec<u8>, prefixed: Blake2sHash, words: Seq<u32>|
        {
            &&& bytes@ == pow_preimage(prefix, digest, pow_bits)
            &&& #[trigger] call_ensures(hash, (bytes,), prefixed)
            &&& #[trigger] prefixed.has_words(words)
            &&& grind_outcome(run, words, pow_bits, is_m31_output, r)
        }
}

/// Searches for a nonce, one batch after the other.  `hash` hashes bytes; `run` has a batch
/// searched by the device.  There is no nonce where all batches found nothing.
pub fn grind<H: Fn(Vec<u8>) -> Blake2sHash, F: Fn(Plan) -> GrindBatch>(
    prefix: u32,
    digest: Blake2sHash,
    pow_bits: u32,
    is_m31_output: bool,
    hash: H,
    run: F,
) -> (r: Option<u64>)
    requires
        pow_bits <= MAX_POW_BITS,
        forall|bytes: Vec<u8>|
            bytes@ == pow_preimage(prefix, digest.0@, pow_bits) ==> #[trigger] call_requires(
                hash,
                (bytes,),
            ),
        forall|bytes: Vec<u8>, prefixed: Blake2sHash, words: Seq<u32>|
            bytes@ == pow_preimage(prefix, digest.0@, pow_bits) && #[trigger] call_ensures(
                hash,
                (bytes,),
                prefixed,
            ) && #[trigger] prefixed.has_words(words) ==> takes_batches(
                run,
                words,
                pow_bits,
                is_m31_output,
            ),
    ensures
        grind_result(hash, run, prefix, digest.0@, pow_bits, is_m31_output, r),
{
    let bytes = pow_prefix_preimage(prefix, digest, pow_bits);
    let ghost preimage = bytes;
    let prefixed_digest = hash(bytes);
    let words = prefixed_digest.words();
    assert(call_ensures(hash, (preimage,), prefixed_digest));
    assert(prefixed_digest.has_words(words@));
    let mut batch_id: u64 = 0;
    loop
        invariant
            batch_id <= LAST_BATCH,
            prefixed_digest.has_words(words@),
            preimage@ == pow_preimage(prefix, digest.0@, pow_bits),
            call_ensures(hash, (preimage,), prefixed_digest),
            takes_batches(run, words@, pow_bits, is_m31_output),
            empty_before(run, words@, pow_bits, is_m31_output, batch_id as int),
        decreases LAST_BATCH + 1 - batch_id,
    {
        let plan = plan_grind_batch(prefixed_digest, pow_bits, batch_id, is_m31_output);
        let ghost given = plan;
        assert(given@ == grind_plan(words@, pow_bits, batch_id as int, is_m31_output));
        assert(takes_batch(run, words@, pow_bits, is_m31_output, batch_id as int));
        let batch = run(plan);
        assert(call_ensures(run, (given,), batch));
        match grind_step(batch_id, &batch) {
            GrindStep::Found(nonce) => {
                proof {
                    let last = batch_id as int;
                    assert(batch_gives(run, words@, pow_bits, is_m31_output, last, nonce));
                    assert(first_found(run, words@, pow_bits, is_m31_output, nonce));
                }
                return Some(nonce);
            },
            GrindStep::Next(next) => {
                assert(batch_empty(run, words@, pow_bits, is_m31_output, batch_id as int));
                batch_id = next;
            },
            GrindStep::Failed(_) => {
                assert(batch_empty(run, words@, pow_bits, is_m31_output, batch_id as int));
                return None;
            },
        }
    }
}

/// The nonces that a batch tries.
pub open spec fn in_batch(nonce: u64, batch_id: int) -> bool {
    start_nonce(batch_id) <= nonce < start_nonce(batch_id + 1)
}

/// The device finds what there is: the candidates of a batch are valid nonces of the batch,
/// and a batch with a valid nonce has a candidate.
pub open spec fn device_finds<F: Fn(Plan) -> GrindBatch>(
    run: F,
    digest_words: Seq<u32>,
    pow_bits: u32,
    is_m31_output: bool,
    valid: spec_fn(u64) -> bool,
) -> bool {
    forall|plan: Plan, batch: GrindBatch, b: int|
        {
            &&& 0 <= b <= LAST_BATCH
            &&& plan@ == #[trigger] grind_plan(digest_words, pow_bits, b, is_m31_output)
            &&& #[trigger] call_ensures(run, (plan,), batch)
        } ==> {
            &&& forall|i: int|
                0 <= i < written(batch.count) ==> valid(#[trigger] batch.candidates[i]) && in_batch(
                    batch.candidates[i],
                    b,
                )
            &&& batch.count == 0 ==> forall|nonce: u64| #[trigger]
                in_batch(nonce, b) ==> !valid(nonce)
        }
}

/// A search with a device that finds what there is gives a valid nonce of the first batch
/// that holds one, and gives none only where no batch holds one.
pub proof fn law_search_finds_nonce<F: Fn(Plan) -> GrindBatch>(
    run: F,
    digest_words: Seq<u32>,
    pow_bits: u32,
    is_m31_output: bool,
    valid: spec_fn(u64) -> bool,
    r: Option<u64>,
)
    requires
        grind_outcome(run, digest_words, pow_bits, is_m31_output, r),
        device_finds(run, digest_words, pow_bits, is_m31_output, valid),
    ensures
        match r {
            Some(nonce) => {
                &&& valid(nonce)
                &&& exists|last: int|
                    0 <= last <= LAST_BATCH && #[trigger] in_batch(nonce, last) && forall|n: u64|
                        n < start_nonce(last) ==> !#[trigger] valid(n)
            },
            None => forall|n: u64| n < start_nonce(LAST_BATCH + 1) ==> !#[trigger] valid(n),
        },
{
    match r {
        Some(nonce) => {
            let last = choose|last: int|
                0 <= last <= LAST_BATCH && #[trigger] empty_before(
                    run,
                    digest_words,
                    pow_bits,
                    is_m31_output,
                    last,
                ) && batch_gives(run, digest_words, pow_bits, is_m31_output, last, nonce);
            let (plan, batch) = choose|plan: Plan, batch: GrindBatch|
                plan@ == grind_plan(digest_words, pow_bits, last, is_m31_output)
                    && #[trigger] call_ensures(run, (plan,), batch) && is_least(batch, nonce);
            let i = choose|i: int|
                0 <= i < written(batch.count) && #[trigger] batch.candidates[i] == nonce;
            assert(in_batch(batch.candidates[i], last));
            lemma_no_valid_before(run, digest_words, pow_bits, is_m31_output, valid, last);
        },
        None => {
            lemma_no_valid_before(
                run,
                digest_words,
                pow_bits,
                is_m31_output,
                valid,
                LAST_BATCH + 1,
            );
        },
    }
}

proof fn lemma_no_valid_before<F: Fn(Plan) -> GrindBatch>(
    run: F,
    digest_words: Seq<u32>,
    pow_bits: u32,
    is_m31_output: bool,
    valid: spec_fn(u64) -> bool,
    last: int,
)
    requires
        0 <= last <= LAST_BATCH + 1,
        empty_before(run, digest_words, pow_bits, is_m31_output, last),
        device_finds(run, digest_words, pow_bits, is_m31_output, valid),
    ensures
        forall|n: u64| n < start_nonce(last) ==> !#[trigger] valid(n),
{
    assert forall|n: u64| n < start_nonce(last) implies !#[trigger] valid(n) by {
        let b = n as int / 16777216;
        assert(in_batch(n, b));
        assert(batch_empty(run, digest_words, pow_bits, is_m31_output, b));
    }
}

/// The batches follow one another without a gap, and every nonce that they reach is tried
/// by exactly one of them, at one place of one thread.
pub proof fn law_batches_tile_nonces(nonce: int)
    requires
        0 <= nonce < start_nonce(LAST_BATCH + 1),
    ensures
        exists|batch_id: int, thread: int, k: int|
            {
                &&& 0 <= batch_id <= LAST_BATCH
                &&& 0 <= thread < THREADS_PER_BATCH
                &&& 0 <= k < BATCH_SIZE
                &&& nonce == #[trigger] place_of(batch_id, thread, k)
            },
        forall|b1: int, t1: int, k1: int, b2: int, t2: int, k2: int|
            #![trigger place_of(b1, t1, k1), place_of(b2, t2, k2)]
            0 <= t1 < THREADS_PER_BATCH && 0 <= k1 < BATCH_SIZE && 0 <= t2 < THREADS_PER_BATCH && 0
                <= k2 < BATCH_SIZE && place_of(b1, t1, k1) == place_of(b2, t2, k2) ==> b1 == b2
                && t1 == t2 && k1 == k2,
{
    let per_batch = 16384 * 1024int;
    let b = nonce / per_batch;
    let t = (nonce % per_batch) / 1024;
    let k = nonce % 1024;
    assert(nonce == place_of(b, t, k));
}

/// The `k`-th nonce that a thread of a batch tries.
pub open spec fn place_of(batch_id: int, thread: int, k: int) -> int {
    start_nonce(batch_id) + thread * BATCH_SIZE + k
}

/// What is hashed before the search, byte by byte: the prefix as a little-endian number,
/// twelve zeros, the digest, and the number of bits as a little-endian number.
pub proof fn law_preimage_layout(prefix: u32, digest: Seq<u8>, pow_bits: u32)
    requires
        digest.len() == 32,
    ensures
        ({
            let b = pow_preimage(prefix, digest, pow_bits);
            &&& b.len() == 52
            &&& b[0] + 256 * b[1] + 0x1_0000 * b[2] + 0x100_0000 * b[3] == prefix
            &&& forall|i: int| 4 <= i < 16 ==> #[trigger] b[i] == 0
            &&& b.subrange(16, 48) == digest
            &&& b[48] + 256 * b[49] + 0x1_0000 * b[50] + 0x100_0000 * b[51] == pow_bits
        }),
{
    let b = pow_preimage(prefix, digest, pow_bits);
    byte_order::law_little_endian_value(prefix, 0);
    byte_order::law_little_endian_value(pow_bits, 0);
    assert(b.subrange(16, 48) =~= digest);
    let p = byte_order::le32(prefix);
    let n = byte_order::le32(pow_bits);
    assert(b[0] == p[0] && b[1] == p[1] && b[2] == p[2] && b[3] == p[3]);
    assert(b[48] == n[0] && b[49] == n[1] && b[50] == n[2] && b[51] == n[3]);
}

/// A batch found what there is among `count` nonces from the first on: its candidates are
/// valid ones of them, and there is one where there is such a nonce.
pub open spec fn found_among(
    valid: spec_fn(Seq<u32>, u32, bool, u64) -> bool,
    words: Seq<u32>,
    bits: u32,
    is_m31: bool,
    first: int,
    count: int,
    batch: GrindBatch,
) -> bool {
    &&& forall|i: int|
        0 <= i < written(batch.count) ==> valid(
            words,
            bits,
            is_m31,
            #[trigger] batch.candidates[i],
        ) && first <= batch.candidates[i] < first + count
    &&& batch.count == 0 ==> forall|nonce: u64|
        first <= nonce < first + count ==> !#[trigger] valid(words, bits, is_m31, nonce)
}

/// The device searches as it is told: a launch finds what is valid for the words, the number
/// of bits and the output that it is given, where each of its threads tries as many nonces as
/// it is told, one thread after the other from the first nonce on.
pub open spec fn searches<F: Fn(Plan) -> GrindBatch>(
    run: F,
    valid: spec_fn(Seq<u32>, u32, bool, u64) -> bool,
) -> bool {
    forall|plan: Plan, batch: GrindBatch|
        {
            &&& #[trigger] call_ensures(run, (plan,), batch)
            &&& plan@.dispatches.len() == 1
            &&& plan@.dispatches[0].kernel == Kernel::Grind
        } ==> {
            let d = plan@.dispatches[0];
            match (d.args[0], d.args[3], d.args[4], d.args[5], d.args[6]) {
                (
                    Arg::Buffer { slot, offset: 0 },
                    Arg::U32(bits),
                    Arg::U64(first),
                    Arg::U32(each),
                    Arg::Flag(is_m31),
                ) => {
                    let words = match plan@.buffers[slot as int] {
                        kernel::SourceView::Words(words) => words,
                        _ => Seq::empty(),
                    };
                    found_among(
                        valid,
                        words,
                        bits,
                        is_m31,
                        first as int,
                        kernel::launched(d.grid) * each,
                        batch,
                    )
                },
                _ => true,
            }
        }
}

/// A device that searches as it is told finds, for the plan of each batch, what there is among
/// the nonces of the batch for the digest, the number of bits and the output of the search.
pub proof fn law_plans_search_their_batches<F: Fn(Plan) -> GrindBatch>(
    run: F,
    valid: spec_fn(Seq<u32>, u32, bool, u64) -> bool,
    digest_words: Seq<u32>,
    pow_bits: u32,
    is_m31_output: bool,
)
    requires
        searches(run, valid),
    ensures
        device_finds(
            run,
            digest_words,
            pow_bits,
            is_m31_output,
            |nonce: u64| valid(digest_words, pow_bits, is_m31_output, nonce),
        ),
{
    let of_search = |nonce: u64| valid(digest_words, pow_bits, is_m31_output, nonce);
    assert forall|plan: Plan, batch: GrindBatch, b: int|
        {
            &&& 0 <= b <= LAST_BATCH
            &&& plan@ == #[trigger] grind_plan(digest_words, pow_bits, b, is_m31_output)
            &&& #[trigger] call_ensures(run, (plan,), batch)
        } implies {
        &&& forall|i: int|
            0 <= i < written(batch.count) ==> of_search(#[trigger] batch.candidates[i])
                && in_batch(batch.candidates[i], b)
        &&& batch.count == 0 ==> forall|nonce: u64| #[trigger]
            in_batch(nonce, b) ==> !of_search(nonce)
    } by {
        let d = plan@.dispatches[0];
        assert(d.grid == kernel::spec_groups_for(THREADS_PER_BATCH));
        assert(kernel::launched(d.grid) == 16384) by {
            assert(kernel::spec_groups_for(16384)->count == 64);
            assert(64 * 256 == 16384int);
        }
        assert(start_nonce(b + 1) == start_nonce(b) + 16384 * 1024);
        assert(0 <= start_nonce(b) <= u64::MAX);
        let first = start_nonce(b) as u64;
        assert(d.args[0] == kernel::spec_whole(0));
        assert(d.args[3] == Arg::U32(pow_bits));
        assert(d.args[4] == Arg::U64(first));
        assert(d.args[5] == Arg::U32(BATCH_SIZE));
        assert(d.args[6] == Arg::Flag(is_m31_output));
        assert(plan@.buffers[0] == kernel::SourceView::Words(digest_words));
        assert(16384 * BATCH_SIZE == 16384 * 1024);
        assert(found_among(
            valid,
            digest_words,
            pow_bits,
            is_m31_output,
            start_nonce(b),
            16384 * 1024int,
            batch,
        ));
    }
}

/// A search starts with no candidates, and has room for as many as it may find.
pub proof fn law_search_starts_empty(
    digest_words: Seq<u32>,
    pow_bits: u32,
    batch_id: int,
    is_m31_output: bool,
)
    ensures
        ({
            let plan = grind_plan(digest_words, pow_bits, batch_id, is_m31_output);
            let args = plan.dispatches[0].args;
            &&& args[1] == (Arg::Buffer { slot: 1, offset: 0 })
            &&& plan.buffers[1] == kernel::SourceView::Fresh((8 * MAX_GRIND_CANDIDATES) as u64)
            &&& args[2] == (Arg::Buffer { slot: 2, offset: 0 })
            &&& plan.buffers[2] == kernel::SourceView::Words(seq![0u32])
        }),
{
}

} // verus!
