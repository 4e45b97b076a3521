//! A Fiat-Shamir channel whose digest is kept as the device's words.
//!
//! The channel decides what is hashed and what becomes of the result.  Hashing on the
//! processor is a function `hash` from bytes to a hash; hashing on the device is a function
//! `run` that performs a plan and gives the eight words that it computes.

use crate::blake2s_hash::Blake2sHash;
use crate::byte_order;
use crate::byte_order::{push_le64, push_le_words};
use crate::columns;
use crate::columns::felts_to_words;
use crate::fields;
use crate::fields::{BaseField, SecureField, P};
use crate::grind;
use crate::grind::pow_prefix_preimage;
use crate::kernel;
use crate::kernel::{whole, Arg, Grid, Kernel, Plan, Source};
use crate::planned_transform;
use vstd::arithmetic::div_mod::*;
use vstd::arithmetic::power2::*;
use vstd::prelude::*;

verus! {

/// Number of base field elements that a hash gives.
pub const FELTS_PER_HASH: usize = 8;

/// Least number of elements that are mixed in on the device.
pub const GPU_THRESHOLD: usize = 10;

/// A channel with its digest and the number of draws since the digest changed.
#[derive(Debug)]
pub struct MetalBlake2sChannelGeneric<const IS_M31_OUTPUT: bool> {
    pub digest_words: [u32; 8],
    pub n_draws: u32,
}

/// A channel with plain hashes.
pub type MetalBlake2sChannel = MetalBlake2sChannelGeneric<false>;

/// A channel with hashes that are reduced to field elements.
pub type MetalBlake2sM31Channel = MetalBlake2sChannelGeneric<true>;

/// One thread.
pub open spec fn one_thread() -> Grid {
    Grid::Groups { count: 1, size: 1 }
}

/// The device's mix of a root into a digest; the new digest is in buffer 2.
pub open spec fn mix_root_plan(digest: Seq<u32>, root: Seq<u32>, is_m31: bool) -> kernel::PlanView {
    kernel::PlanView {
        buffers: seq![
            kernel::SourceView::Words(digest),
            kernel::SourceView::Words(root),
            kernel::SourceView::Fresh(32),
        ],
        dispatches: seq![
            kernel::DispatchView {
                kernel: Kernel::Blake2sChannelMix,
                args: seq![
                    kernel::spec_whole(0),
                    kernel::spec_whole(1),
                    Arg::Flag(is_m31),
                    kernel::spec_whole(2),
                ],
                grid: one_thread(),
            },
        ],
    }
}

/// The device's draw of number `n_draws` from a digest; the words are in buffer 1.
pub open spec fn draw_plan(digest: Seq<u32>, n_draws: u32, is_m31: bool) -> kernel::PlanView {
    kernel::PlanView {
        buffers: seq![kernel::SourceView::Words(digest), kernel::SourceView::Fresh(32)],
        dispatches: seq![
            kernel::DispatchView {
                kernel: Kernel::Blake2sChannelDraw,
                args: seq![
                    kernel::spec_whole(0),
                    Arg::U32(n_draws),
                    Arg::U8(0),
                    Arg::Flag(is_m31),
                    kernel::spec_whole(1),
                ],
                grid: one_thread(),
            },
        ],
    }
}

/// The device's mix of elements into a digest; the new digest is in buffer 2.
pub open spec fn mix_felts_plan(
    digest: Seq<u32>,
    felts: Seq<SecureField>,
    is_m31: bool,
) -> kernel::PlanView {
    kernel::PlanView {
        buffers: seq![
            kernel::SourceView::Words(digest),
            kernel::SourceView::Words(columns::felt_words(felts)),
            kernel::SourceView::Fresh(32),
        ],
        dispatches: seq![
            kernel::DispatchView {
                kernel: Kernel::Blake2sChannelMixFelts,
                args: seq![
                    kernel::spec_whole(0),
                    kernel::spec_whole(1),
                    Arg::U32(felts.len() as u32),
                    Arg::Flag(is_m31),
                    kernel::spec_whole(2),
                ],
                grid: one_thread(),
            },
        ],
    }
}

/// The device gave these words for a plan.
pub open spec fn ran<F: FnOnce(Plan) -> [u32; 8]>(
    run: F,
    plan: kernel::PlanView,
    words: [u32; 8],
) -> bool {
    exists|p: Plan| p@ == plan && #[trigger] call_ensures(run, (p,), words)
}

/// The processor gave this hash for bytes.
pub open spec fn hashed<H: FnOnce(Vec<u8>) -> Blake2sHash>(
    hash: H,
    bytes: Seq<u8>,
    result: Blake2sHash,
) -> bool {
    exists|b: Vec<u8>| b@ == bytes && #[trigger] call_ensures(hash, (b,), result)
}

/// All words of a draw are below twice the modulus, so that they reduce evenly.
pub open spec fn in_range(words: Seq<u32>) -> bool {
    forall|i: int| 0 <= i < words.len() ==> #[trigger] words[i] < 2 * P
}

/// The base field elements that the words of a draw stand for.
pub open spec fn draw_felts(words: Seq<u32>) -> Seq<BaseField> {
    words.map_values(|w: u32| BaseField(fields::modp(w as int) as u32))
}

/// Draw number `n` was rejected.
pub open spec fn rejected<F: Fn(Plan) -> [u32; 8]>(
    run: F,
    digest: Seq<u32>,
    is_m31: bool,
    n: int,
) -> bool {
    exists|words: [u32; 8]|
        #[trigger] ran(run, draw_plan(digest, n as u32, is_m31), words) && !in_range(words@)
}

/// Draw number `n` gave the elements.
pub open spec fn accepted<F: Fn(Plan) -> [u32; 8]>(
    run: F,
    digest: Seq<u32>,
    is_m31: bool,
    n: int,
    felts: Seq<BaseField>,
) -> bool {
    exists|words: [u32; 8]|
        #[trigger] ran(run, draw_plan(digest, n as u32, is_m31), words) && in_range(words@)
            && felts == draw_felts(words@)
}

/// The draws from number `first` on were rejected, but for the one before number `next`,
/// which gave the elements.
pub open spec fn drawn<F: Fn(Plan) -> [u32; 8]>(
    run: F,
    digest: Seq<u32>,
    is_m31: bool,
    first: int,
    next: int,
    felts: Seq<BaseField>,
) -> bool {
    &&& first < next
    &&& forall|n: int| first <= n < next - 1 ==> #[trigger] rejected(run, digest, is_m31, n)
    &&& accepted(run, digest, is_m31, next - 1, felts)
}

/// All draws from number `first` on were rejected.
pub open spec fn all_rejected<F: Fn(Plan) -> [u32; 8]>(
    run: F,
    digest: Seq<u32>,
    is_m31: bool,
    first: int,
) -> bool {
    forall|n: int| first <= n < u32::MAX ==> #[trigger] rejected(run, digest, is_m31, n)
}

/// A runner can be given a plan.
pub open spec fn takes<F: FnOnce(Plan) -> [u32; 8]>(run: F, plan: kernel::PlanView) -> bool {
    forall|given: Plan| given@ == plan ==> #[trigger] call_requires(run, (given,))
}

/// A hash function can be given bytes.
pub open spec fn takes_bytes<H: FnOnce(Vec<u8>) -> Blake2sHash>(hash: H, bytes: Seq<u8>) -> bool {
    forall|given: Vec<u8>| given@ == bytes ==> #[trigger] call_requires(hash, (given,))
}

/// A runner can be given the plan of each draw from number `first` on before which all draws
/// were rejected.
pub open spec fn takes_draws<F: Fn(Plan) -> [u32; 8]>(
    run: F,
    digest: Seq<u32>,
    is_m31: bool,
    first: int,
) -> bool {
    forall|n: int|
        first <= n < u32::MAX && (forall|m: int|
            first <= m < n ==> #[trigger] rejected(run, digest, is_m31, m)) ==> #[trigger] takes(
            run,
            draw_plan(digest, n as u32, is_m31),
        )
}

/// A buffer with eight words.
fn words_source(words: &[u32; 8]) -> (r: Source)
    ensures
        r@ == kernel::SourceView::Words(words@),
{
    let mut copy: Vec<u32> = Vec::new();
    copy.extend_from_slice(words);
    assert(copy@ =~= words@);
    Source::Words(copy)
}

impl<const IS_M31_OUTPUT: bool> MetalBlake2sChannelGeneric<IS_M31_OUTPUT> {
    /// A channel with the zero digest.
    pub fn new() -> (r: Self)
        ensures
            r.digest_words@ == Seq::new(8, |i: int| 0u32),
            r.n_draws == 0,
    {
        let r = MetalBlake2sChannelGeneric { digest_words: [0; 8], n_draws: 0 };
        assert(r.digest_words@ =~= Seq::new(8, |i: int| 0u32));
        r
    }

    /// The digest as a hash.
    pub fn digest(&self) -> (r: Blake2sHash)
        ensures
            r.has_words(self.digest_words@),
    {
        Blake2sHash::from_words(self.digest_words)
    }

    /// Replaces the digest and starts counting draws again.
    pub fn update_digest(&mut self, new_digest: Blake2sHash)
        ensures
            new_digest.has_words(final(self).digest_words@),
            final(self).n_draws == 0,
    {
        self.digest_words = new_digest.words();
        self.n_draws = 0;
    }

    /// Mixes a root into the digest on the device.
    pub fn gpu_mix_root<F: FnOnce(Plan) -> [u32; 8]>(&mut self, root: &Blake2sHash, run: F)
        requires
            forall|words: Seq<u32>| #[trigger]
                root.has_words(words) ==> takes(
                    run,
                    mix_root_plan(old(self).digest_words@, words, IS_M31_OUTPUT),
                ),
        ensures
            forall|words: Seq<u32>| #[trigger]
                root.has_words(words) ==> ran(
                    run,
                    mix_root_plan(old(self).digest_words@, words, IS_M31_OUTPUT),
                    final(self).digest_words,
                ),
            final(self).n_draws == 0,
    {
        let root_words = root.words();
        let mut plan = Plan::new();
        let digest: usize = plan.add_buffer(words_source(&self.digest_words));
        let mixed: usize = plan.add_buffer(words_source(&root_words));
        let output: usize = plan.add_buffer(Source::Fresh(32));
        let args = vec![whole(digest), whole(mixed), Arg::Flag(IS_M31_OUTPUT), whole(output)];
        let ghost expected = mix_root_plan(self.digest_words@, root_words@, IS_M31_OUTPUT);
        assert(args@ =~= expected.dispatches[0].args);
        plan.dispatch(Kernel::Blake2sChannelMix, args, Grid::Groups { count: 1, size: 1 });
        assert(plan@ =~= expected);
        let ghost given = plan;
        let new_digest = run(plan);
        assert(call_ensures(run, (given,), new_digest));
        self.digest_words = new_digest;
        self.n_draws = 0;
        proof {
            assert(ran(run, expected, self.digest_words));
            assert forall|words: Seq<u32>| #[trigger] root.has_words(words) implies ran(
                run,
                mix_root_plan(old(self).digest_words@, words, IS_M31_OUTPUT),
                self.digest_words,
            ) by {
                byte_order::lemma_le_words_injective(words, root_words@);
            }
        }
    }

    /// Draws eight words on the device.
    pub fn gpu_draw_u32s<F: FnOnce(Plan) -> [u32; 8]>(&mut self, run: F) -> (r: [u32; 8])
        requires
            old(self).n_draws < u32::MAX,
            takes(run, draw_plan(old(self).digest_words@, old(self).n_draws, IS_M31_OUTPUT)),
        ensures
            ran(run, draw_plan(old(self).digest_words@, old(self).n_draws, IS_M31_OUTPUT), r),
            final(self).digest_words == old(self).digest_words,
            final(self).n_draws == old(self).n_draws + 1,
    {
        let mut plan = Plan::new();
        let digest: usize = plan.add_buffer(words_source(&self.digest_words));
        let output: usize = plan.add_buffer(Source::Fresh(32));
        let args = vec![
            whole(digest),
            Arg::U32(self.n_draws),
            Arg::U8(0),
            Arg::Flag(IS_M31_OUTPUT),
            whole(output),
        ];
        let ghost expected = draw_plan(self.digest_words@, self.n_draws, IS_M31_OUTPUT);
        assert(args@ =~= expected.dispatches[0].args);
        plan.dispatch(Kernel::Blake2sChannelDraw, args, Grid::Groups { count: 1, size: 1 });
        assert(plan@ =~= expected);
        let ghost given = plan;
        let words = run(plan);
        assert(call_ensures(run, (given,), words));
        self.n_draws = self.n_draws + 1;
        words
    }

    /// Draws words.
    pub fn draw_u32s<F: FnOnce(Plan) -> [u32; 8]>(&mut self, run: F) -> (r: [u32; 8])
        requires
            old(self).n_draws < u32::MAX,
            takes(run, draw_plan(old(self).digest_words@, old(self).n_draws, IS_M31_OUTPUT)),
        ensures
            ran(run, draw_plan(old(self).digest_words@, old(self).n_draws, IS_M31_OUTPUT), r),
            final(self).digest_words == old(self).digest_words,
            final(self).n_draws == old(self).n_draws + 1,
    {
        self.gpu_draw_u32s(run)
    }

    /// Draws base field elements, again and again until all words are in range.  There are
    /// none where the number of draws reaches its end.
    pub fn draw_base_felts<F: Fn(Plan) -> [u32; 8]>(&mut self, run: &F) -> (r: Option<
        [BaseField; 8],
    >)
        requires
            takes_draws(
                *run,
                old(self).digest_words@,
                IS_M31_OUTPUT,
                old(self).n_draws as int,
            ),
        ensures
            final(self).digest_words == old(self).digest_words,
            r matches Some(felts) ==> drawn(
                *run,
                old(self).digest_words@,
                IS_M31_OUTPUT,
                old(self).n_draws as int,
                final(self).n_draws as int,
                felts@,
            ),
            r is None ==> final(self).n_draws == u32::MAX && all_rejected(
                *run,
                old(self).digest_words@,
                IS_M31_OUTPUT,
                old(self).n_draws as int,
            ),
    {
        let ghost digest = self.digest_words@;
        let ghost first = self.n_draws as int;
        while self.n_draws < u32::MAX
            invariant
                self.digest_words == old(self).digest_words,
                digest == self.digest_words@,
                first <= self.n_draws,
                first == old(self).n_draws,
                takes_draws(*run, digest, IS_M31_OUTPUT, first),
                forall|n: int|
                    first <= n < self.n_draws ==> #[trigger] rejected(
                        *run,
                        digest,
                        IS_M31_OUTPUT,
                        n,
                    ),
            decreases u32::MAX - self.n_draws,
        {
            let ghost n = self.n_draws as int;
            assert(takes(*run, draw_plan(digest, n as u32, IS_M31_OUTPUT)));
            let u32s = self.gpu_draw_u32s(run);
            proof {
                assert(ran(*run, draw_plan(digest, n as u32, IS_M31_OUTPUT), u32s));
            }
            if all_in_range(&u32s) {
                let felts = reduce_words(&u32s);
                assert(accepted(*run, digest, IS_M31_OUTPUT, n, felts@));
                return Some(felts);
            }
            assert(rejected(*run, digest, IS_M31_OUTPUT, n));
        }
        None
    }
}

/// Whether all words of a draw are below twice the modulus.
fn all_in_range(words: &[u32; 8]) -> (r: bool)
    ensures
        r == in_range(words@),
{
    for i in 0..8usize
        invariant
            forall|k: int| 0 <= k < i ==> #[trigger] words@[k] < 2 * P,
    {
        if words[i] >= 2 * P {
            assert(!in_range(words@)) by {
                assert(words@[i as int] >= 2 * P);
            }
            return false;
        }
    }
    true
}

/// The base field elements that the words of a draw stand for.
fn reduce_words(words: &[u32; 8]) -> (r: [BaseField; 8])
    ensures
        r@ == draw_felts(words@),
{
    let r = [
        BaseField::reduce(words[0] as u64),
        BaseField::reduce(words[1] as u64),
        BaseField::reduce(words[2] as u64),
        BaseField::reduce(words[3] as u64),
        BaseField::reduce(words[4] as u64),
        BaseField::reduce(words[5] as u64),
        BaseField::reduce(words[6] as u64),
        BaseField::reduce(words[7] as u64),
    ];
    assert(r@ =~= draw_felts(words@));
    r
}

impl<const IS_M31_OUTPUT: bool> MetalBlake2sChannelGeneric<IS_M31_OUTPUT> {
    /// What is hashed to mix words into a digest: the digest, then the words.
    pub open spec fn mix_preimage(digest: Seq<u32>, data: Seq<u32>) -> Seq<u8> {
        byte_order::le_words(digest) + byte_order::le_words(data)
    }

    /// Mixes elements into the digest on the device.
    pub fn gpu_mix_felts<F: FnOnce(Plan) -> [u32; 8]>(&mut self, felts: &[SecureField], run: F)
        requires
            takes(run, mix_felts_plan(old(self).digest_words@, felts@, IS_M31_OUTPUT)),
        ensures
            ran(
                run,
                mix_felts_plan(old(self).digest_words@, felts@, IS_M31_OUTPUT),
                final(self).digest_words,
            ),
            final(self).n_draws == 0,
    {
        let mut plan = Plan::new();
        let digest: usize = plan.add_buffer(words_source(&self.digest_words));
        let mixed: usize = plan.add_buffer(Source::Words(felts_to_words(felts)));
        let output: usize = plan.add_buffer(Source::Fresh(32));
        let args = vec![
            whole(digest),
            whole(mixed),
            Arg::U32(felts.len() as u32),
            Arg::Flag(IS_M31_OUTPUT),
            whole(output),
        ];
        let ghost expected = mix_felts_plan(self.digest_words@, felts@, IS_M31_OUTPUT);
        assert(args@ =~= expected.dispatches[0].args);
        plan.dispatch(Kernel::Blake2sChannelMixFelts, args, Grid::Groups { count: 1, size: 1 });
        assert(plan@ =~= expected);
        let ghost given = plan;
        let new_digest = run(plan);
        assert(call_ensures(run, (given,), new_digest));
        self.digest_words = new_digest;
        self.n_draws = 0;
    }

    /// Mixes words into the digest.
    pub fn mix_u32s<H: FnOnce(Vec<u8>) -> Blake2sHash>(&mut self, data: &[u32], hash: H)
        requires
            takes_bytes(hash, Self::mix_preimage(old(self).digest_words@, data@)),
        ensures
            exists|result: Blake2sHash|
                {
                    &&& #[trigger] hashed(
                        hash,
                        Self::mix_preimage(old(self).digest_words@, data@),
                        result,
                    )
                    &&& result.has_words(final(self).digest_words@)
                },
            final(self).n_draws == 0,
    {
        let mut bytes: Vec<u8> = Vec::new();
        bytes.extend_from_slice(&self.digest().0);
        push_le_words(&mut bytes, data);
        let ghost preimage = Self::mix_preimage(self.digest_words@, data@);
        assert(bytes@ =~= preimage);
        let ghost given = bytes;
        let result = hash(bytes);
        assert(call_ensures(hash, (given,), result));
        assert(hashed(hash, preimage, result));
        self.update_digest(result);
    }

    /// Mixes elements into the digest on the processor.
    pub fn cpu_mix_felts<H: FnOnce(Vec<u8>) -> Blake2sHash>(
        &mut self,
        felts: &[SecureField],
        hash: H,
    )
        requires
            takes_bytes(
                hash,
                Self::mix_preimage(old(self).digest_words@, columns::felt_words(felts@)),
            ),
        ensures
            exists|result: Blake2sHash|
                {
                    &&& #[trigger] hashed(
                        hash,
                        Self::mix_preimage(
                            old(self).digest_words@,
                            columns::felt_words(felts@),
                        ),
                        result,
                    )
                    &&& result.has_words(final(self).digest_words@)
                },
            final(self).n_draws == 0,
    {
        let words = felts_to_words(felts);
        self.mix_u32s(words.as_slice(), hash);
    }

    /// Mixes elements into the digest: many on the device, few on the processor.
    pub fn mix_felts<H: FnOnce(Vec<u8>) -> Blake2sHash, F: FnOnce(Plan) -> [u32; 8]>(
        &mut self,
        felts: &[SecureField],
        hash: H,
        run: F,
    )
        requires
            felts.len() < GPU_THRESHOLD ==> takes_bytes(
                hash,
                Self::mix_preimage(old(self).digest_words@, columns::felt_words(felts@)),
            ),
            felts.len() >= GPU_THRESHOLD ==> takes(
                run,
                mix_felts_plan(old(self).digest_words@, felts@, IS_M31_OUTPUT),
            ),
        ensures
            felts.len() >= GPU_THRESHOLD ==> ran(
                run,
                mix_felts_plan(old(self).digest_words@, felts@, IS_M31_OUTPUT),
                final(self).digest_words,
            ),
            felts.len() < GPU_THRESHOLD ==> exists|result: Blake2sHash|
                {
                    &&& #[trigger] hashed(
                        hash,
                        Self::mix_preimage(
                            old(self).digest_words@,
                            columns::felt_words(felts@),
                        ),
                        result,
                    )
                    &&& result.has_words(final(self).digest_words@)
                },
            final(self).n_draws == 0,
    {
        if felts.len() >= GPU_THRESHOLD {
            self.gpu_mix_felts(felts, run);
        } else {
            self.cpu_mix_felts(felts, hash);
        }
    }

    /// Mixes a 64-bit number into the digest.
    pub fn mix_u64<H: FnOnce(Vec<u8>) -> Blake2sHash>(&mut self, value: u64, hash: H)
        requires
            takes_bytes(
                hash,
                byte_order::le_words(old(self).digest_words@) + byte_order::le64(value),
            ),
        ensures
            exists|result: Blake2sHash|
                {
                    &&& #[trigger] hashed(
                        hash,
                        byte_order::le_words(old(self).digest_words@) + byte_order::le64(value),
                        result,
                    )
                    &&& result.has_words(final(self).digest_words@)
                },
            final(self).n_draws == 0,
    {
        let words: [u32; 2] = [(value % 0x1_0000_0000) as u32, (value / 0x1_0000_0000) as u32];
        proof {
            let w = byte_order::le_words(words@);
            let v = byte_order::le64(value);
            assert forall|k: int| 0 <= k < 8 implies w[k] == v[k] by {
                if k < 4 {
                    assert(k / 4 == 0 && k % 4 == k);
                } else {
                    assert(k / 4 == 1 && k % 4 == k - 4);
                }
            }
            assert(w =~= v);
        }
        self.mix_u32s(&words, hash);
    }

    /// Draws an element of the extension field.  There is none where the number of draws
    /// reaches its end.
    pub fn draw_secure_felt<F: Fn(Plan) -> [u32; 8]>(&mut self, run: &F) -> (r: Option<SecureField>)
        requires
            takes_draws(
                *run,
                old(self).digest_words@,
                IS_M31_OUTPUT,
                old(self).n_draws as int,
            ),
        ensures
            final(self).digest_words == old(self).digest_words,
            felt_drawn(
                *run,
                old(self).digest_words@,
                IS_M31_OUTPUT,
                old(self).n_draws as int,
                final(self).n_draws as int,
                r,
            ),
    {
        match self.draw_base_felts(run) {
            Some(felts) => {
                let felt = SecureField::from_m31_array([felts[0], felts[1], felts[2], felts[3]]);
                assert(felt == felt_at(felts@, 0));
                Some(felt)
            },
            None => None,
        }
    }

    /// Draws elements of the extension field, two for each draw.  There are none where the
    /// number of draws reaches its end.
    pub fn draw_secure_felts<F: Fn(Plan) -> [u32; 8]>(&mut self, n_felts: usize, run: &F) -> (r:
        Option<Vec<SecureField>>)
        requires
            n_felts > 0 ==> forall|n: u32|
                old(self).n_draws <= n < u32::MAX ==> #[trigger] takes(
                    *run,
                    draw_plan(old(self).digest_words@, n, IS_M31_OUTPUT),
                ),
        ensures
            final(self).digest_words == old(self).digest_words,
            felts_drawn(
                *run,
                old(self).digest_words@,
                IS_M31_OUTPUT,
                old(self).n_draws as int,
                final(self).n_draws as int,
                n_felts as int,
                match r {
                    Some(felts) => Some(felts@),
                    None => None,
                },
            ),
    {
        let ghost digest = self.digest_words@;
        let mut felts: Vec<SecureField> = Vec::new();
        let ghost mut blocks: Seq<Seq<BaseField>> = Seq::empty();
        let ghost mut counters: Seq<int> = seq![self.n_draws as int];
        while felts.len() < n_felts
            invariant
                felts.len() <= n_felts,
                self.digest_words == old(self).digest_words,
                digest == self.digest_words@,
                n_felts > 0 ==> forall|n: u32|
                    old(self).n_draws <= n < u32::MAX ==> #[trigger] takes(
                        *run,
                        draw_plan(digest, n, IS_M31_OUTPUT),
                    ),
                old(self).n_draws <= self.n_draws,
                drawn_blocks(*run, digest, IS_M31_OUTPUT, blocks, counters),
                counters[0] == old(self).n_draws,
                counters.last() == self.n_draws,
                blocks.len() == (felts.len() + 1) / 2,
                felts.len() < n_felts ==> felts.len() % 2 == 0,
                forall|i: int|
                    0 <= i < felts.len() ==> #[trigger] felts[i] == felt_at(
                        blocks[i / 2],
                        4 * (i % 2),
                    ),
            decreases n_felts - felts.len(),
        {
            let ghost start = felts.len() as int;
            let ghost before = blocks;
            let ghost counted = counters;
            let block = match self.draw_base_felts(run) {
                Some(block) => block,
                None => {
                    assert(drawn_blocks(*run, digest, IS_M31_OUTPUT, blocks, counters));
                    return None;
                },
            };
            proof {
                blocks = blocks.push(block@);
                counters = counters.push(self.n_draws as int);
                assert forall|k: int| 0 <= k < blocks.len() implies #[trigger] drawn(
                    *run,
                    digest,
                    IS_M31_OUTPUT,
                    counters[k],
                    counters[k + 1],
                    blocks[k],
                ) by {
                    if k < before.len() {
                        assert(drawn(
                            *run,
                            digest,
                            IS_M31_OUTPUT,
                            counted[k],
                            counted[k + 1],
                            before[k],
                        ));
                    }
                }
            }
            let first = SecureField::from_m31_array([block[0], block[1], block[2], block[3]]);
            felts.push(first);
            proof {
                assert(start / 2 == before.len() && start % 2 == 0);
                assert(first == felt_at(block@, 0));
            }
            if felts.len() < n_felts {
                let second = SecureField::from_m31_array([block[4], block[5], block[6], block[7]]);
                felts.push(second);
                proof {
                    assert((start + 1) / 2 == before.len() && (start + 1) % 2 == 1);
                    assert(second == felt_at(block@, 4));
                }
            }
        }
        Some(felts)
    }

    /// Whether a nonce proves the work: the hash of the prefixed digest and the nonce ends in
    /// `n_bits` zero bits, read as a little-endian 128-bit number.
    pub fn verify_pow_nonce<H: Fn(Vec<u8>) -> Blake2sHash>(
        &self,
        prefix: u32,
        n_bits: u32,
        nonce: u64,
        hash: H,
    ) -> (r: bool)
        requires
            takes_bytes(
                hash,
                grind::pow_preimage(prefix, byte_order::le_words(self.digest_words@), n_bits),
            ),
            forall|prefixed: Blake2sHash| #[trigger]
                hashed(
                    hash,
                    grind::pow_preimage(prefix, byte_order::le_words(self.digest_words@), n_bits),
                    prefixed,
                ) ==> takes_bytes(hash, prefixed.0@ + byte_order::le64(nonce)),
        ensures
            pow_verdict(hash, prefix, self.digest_words@, n_bits, nonce, r),
    {
        let first = pow_prefix_preimage(prefix, self.digest(), n_bits);
        let ghost given = first;
        let prefixed = hash(first);
        assert(call_ensures(hash, (given,), prefixed));
        assert(hashed(
            hash,
            grind::pow_preimage(prefix, byte_order::le_words(self.digest_words@), n_bits),
            prefixed,
        ));
        let mut second: Vec<u8> = Vec::new();
        second.extend_from_slice(&prefixed.0);
        push_le64(&mut second, nonce);
        assert(second@ =~= prefixed.0@ + byte_order::le64(nonce));
        let ghost given = second;
        let result = hash(second);
        assert(call_ensures(hash, (given,), result));
        assert(hashed(hash, prefixed.0@ + byte_order::le64(nonce), result));
        has_trailing_zero_bits(&result.0, n_bits)
    }
}

/// What the check of a nonce gives: whether the hash of the prefixed digest and the nonce
/// ends in enough zero bits.
pub open spec fn pow_verdict<H: Fn(Vec<u8>) -> Blake2sHash>(
    hash: H,
    prefix: u32,
    digest: Seq<u32>,
    n_bits: u32,
    nonce: u64,
    r: bool,
) -> bool {
    exists|prefixed: Blake2sHash, result: Blake2sHash|
        {
            &&& #[trigger] hashed(
                hash,
                grind::pow_preimage(prefix, byte_order::le_words(digest), n_bits),
                prefixed,
            )
            &&& #[trigger] hashed(hash, prefixed.0@ + byte_order::le64(nonce), result)
            &&& r == trailing_zero_bits(result.0@, n_bits as int)
        }
}

/// A closure computes a hash function.
pub open spec fn computes<H: FnOnce(Vec<u8>) -> Blake2sHash>(
    hash: H,
    function: spec_fn(Seq<u8>) -> Blake2sHash,
) -> bool {
    forall|bytes: Vec<u8>, result: Blake2sHash| #[trigger]
        call_ensures(hash, (bytes,), result) ==> result == function(bytes@)
}

/// The nonces that prove the work for a digest.
pub open spec fn proves_work(
    function: spec_fn(Seq<u8>) -> Blake2sHash,
    prefix: u32,
    digest: Seq<u32>,
    n_bits: u32,
) -> spec_fn(u64) -> bool {
    |nonce: u64|
        {
            let prefixed = function(
                grind::pow_preimage(prefix, byte_order::le_words(digest), n_bits),
            );
            trailing_zero_bits(
                function(prefixed.0@ + byte_order::le64(nonce)).0@,
                n_bits as int,
            )
        }
}

/// A nonce that a search gives passes the check, and lies in the first batch that holds one
/// that does; there is none only where no batch holds one.  The device is taken to find what
/// there is.
pub proof fn law_ground_nonce_verifies<
    H: Fn(Vec<u8>) -> Blake2sHash,
    F: Fn(Plan) -> grind::GrindBatch,
>(
    hash: H,
    run: F,
    function: spec_fn(Seq<u8>) -> Blake2sHash,
    prefix: u32,
    digest: Seq<u32>,
    n_bits: u32,
    is_m31_output: bool,
    found: Option<u64>,
)
    requires
        computes(hash, function),
        grind::grind_result(
            hash,
            run,
            prefix,
            byte_order::le_words(digest),
            n_bits,
            is_m31_output,
            found,
        ),
        forall|words: Seq<u32>|
            function(
                grind::pow_preimage(prefix, byte_order::le_words(digest), n_bits),
            ).has_words(words) ==> #[trigger] grind::device_finds(
                run,
                words,
                n_bits,
                is_m31_output,
                proves_work(function, prefix, digest, n_bits),
            ),
    ensures
        ({
            let valid = proves_work(function, prefix, digest, n_bits);
            &&& forall|nonce: u64, verdict: bool| #[trigger]
                pow_verdict(hash, prefix, digest, n_bits, nonce, verdict) ==> verdict == valid(
                    nonce,
                )
            &&& match found {
                Some(nonce) => {
                    &&& valid(nonce)
                    &&& exists|last: int|
                        0 <= last <= grind::LAST_BATCH && #[trigger] grind::in_batch(nonce, last)
                            && forall|n: u64|
                            n < grind::start_nonce(last) ==> !#[trigger] valid(n)
                },
                None => forall|n: u64|
                    n < grind::start_nonce(grind::LAST_BATCH + 1) ==> !#[trigger] valid(n),
            }
        }),
{
    let valid = proves_work(function, prefix, digest, n_bits);
    let preimage = grind::pow_preimage(prefix, byte_order::le_words(digest), n_bits);
    let (bytes, prefixed, words) = choose|
        bytes: Vec<u8>,
        prefixed: Blake2sHash,
        words: Seq<u32>,
    |
        {
            &&& bytes@ == preimage
            &&& #[trigger] call_ensures(hash, (bytes,), prefixed)
            &&& #[trigger] prefixed.has_words(words)
            &&& grind::grind_outcome(run, words, n_bits, is_m31_output, found)
        };
    assert(prefixed == function(preimage));
    grind::law_search_finds_nonce(run, words, n_bits, is_m31_output, valid, found);
    assert forall|nonce: u64, verdict: bool| #[trigger]
        pow_verdict(hash, prefix, digest, n_bits, nonce, verdict) implies verdict == valid(
        nonce,
    ) by {}
}

/// The extension field element whose coordinates start at a place.
pub open spec fn felt_at(felts: Seq<BaseField>, start: int) -> SecureField {
    SecureField {
        c0: felts[start],
        c1: felts[start + 1],
        c2: felts[start + 2],
        c3: felts[start + 3],
    }
}

/// Blocks of elements were drawn one after the other, with the numbers of draws between
/// them.
pub open spec fn drawn_blocks<F: Fn(Plan) -> [u32; 8]>(
    run: F,
    digest: Seq<u32>,
    is_m31: bool,
    blocks: Seq<Seq<BaseField>>,
    counters: Seq<int>,
) -> bool {
    &&& counters.len() == blocks.len() + 1
    &&& forall|k: int|
        0 <= k < blocks.len() ==> #[trigger] drawn(
            run,
            digest,
            is_m31,
            counters[k],
            counters[k + 1],
            blocks[k],
        )
}

/// Bit `j` of a little-endian number.
pub open spec fn bit_of(bytes: Seq<u8>, j: int) -> int {
    (bytes[j / 8] as int / pow2((j % 8) as nat) as int) % 2
}

/// What drawing one extension field element gives: the first of the elements of the first
/// draw that is not rejected, or none where all draws are.
pub open spec fn felt_drawn<F: Fn(Plan) -> [u32; 8]>(
    run: F,
    digest: Seq<u32>,
    is_m31: bool,
    first: int,
    next: int,
    r: Option<SecureField>,
) -> bool {
    match r {
        Some(felt) => exists|felts: Seq<BaseField>|
            {
                &&& #[trigger] drawn(run, digest, is_m31, first, next, felts)
                &&& felt == felt_at(felts, 0)
            },
        None => next == u32::MAX && all_rejected(run, digest, is_m31, first),
    }
}

/// What drawing extension field elements gives: two from each draw that is not rejected, or
/// none where the draws come to an end.
pub open spec fn felts_drawn<F: Fn(Plan) -> [u32; 8]>(
    run: F,
    digest: Seq<u32>,
    is_m31: bool,
    first: int,
    next: int,
    n_felts: int,
    r: Option<Seq<SecureField>>,
) -> bool {
    match r {
        Some(felts) => {
            &&& felts.len() == n_felts
            &&& exists|blocks: Seq<Seq<BaseField>>, counters: Seq<int>|
                #[trigger] drawn_blocks(run, digest, is_m31, blocks, counters) && {
                    &&& blocks.len() == (n_felts + 1) / 2
                    &&& counters[0] == first
                    &&& counters.last() == next
                    &&& forall|i: int|
                        0 <= i < n_felts ==> #[trigger] felts[i] == felt_at(
                            blocks[i / 2],
                            4 * (i % 2),
                        )
                }
        },
        None => {
            &&& next == u32::MAX
            &&& exists|blocks: Seq<Seq<BaseField>>, counters: Seq<int>|
                #[trigger] drawn_blocks(run, digest, is_m31, blocks, counters) && {
                    &&& blocks.len() < (n_felts + 1) / 2
                    &&& counters[0] == first
                    &&& all_rejected(run, digest, is_m31, counters.last())
                }
        },
    }
}

/// The device's words are a function of the plan.
pub open spec fn answers<F: FnOnce(Plan) -> [u32; 8]>(
    run: F,
    device: spec_fn(kernel::PlanView) -> [u32; 8],
) -> bool {
    forall|plan: Plan, words: [u32; 8]| #[trigger]
        call_ensures(run, (plan,), words) ==> words == device(plan@)
}

/// A draw is rejected or accepted, not both.
proof fn lemma_not_both<F: Fn(Plan) -> [u32; 8]>(
    run: F,
    device: spec_fn(kernel::PlanView) -> [u32; 8],
    digest: Seq<u32>,
    is_m31: bool,
    n: int,
    felts: Seq<BaseField>,
)
    requires
        answers(run, device),
        accepted(run, digest, is_m31, n, felts),
    ensures
        !rejected(run, digest, is_m31, n),
        felts == draw_felts(device(draw_plan(digest, n as u32, is_m31))@),
{
}

/// From a number on there is one draw that gives elements.
proof fn lemma_drawn_once<F: Fn(Plan) -> [u32; 8]>(
    run: F,
    device: spec_fn(kernel::PlanView) -> [u32; 8],
    digest: Seq<u32>,
    is_m31: bool,
    first: int,
    a_next: int,
    a: Seq<BaseField>,
    b_next: int,
    b: Seq<BaseField>,
)
    requires
        answers(run, device),
        drawn(run, digest, is_m31, first, a_next, a),
        drawn(run, digest, is_m31, first, b_next, b),
    ensures
        a_next == b_next,
        a == b,
{
    lemma_not_both(run, device, digest, is_m31, a_next - 1, a);
    lemma_not_both(run, device, digest, is_m31, b_next - 1, b);
    if a_next < b_next {
        assert(rejected(run, digest, is_m31, a_next - 1));
    }
    if b_next < a_next {
        assert(rejected(run, digest, is_m31, b_next - 1));
    }
}

/// Blocks that are drawn from one number on agree as far as both go.
proof fn lemma_blocks_agree<F: Fn(Plan) -> [u32; 8]>(
    run: F,
    device: spec_fn(kernel::PlanView) -> [u32; 8],
    digest: Seq<u32>,
    is_m31: bool,
    a: Seq<Seq<BaseField>>,
    a_counters: Seq<int>,
    b: Seq<Seq<BaseField>>,
    b_counters: Seq<int>,
    k: int,
)
    requires
        answers(run, device),
        drawn_blocks(run, digest, is_m31, a, a_counters),
        drawn_blocks(run, digest, is_m31, b, b_counters),
        a_counters[0] == b_counters[0],
        0 <= k <= a.len(),
        k <= b.len(),
    ensures
        a_counters[k] == b_counters[k],
        forall|i: int| 0 <= i < k ==> #[trigger] a[i] == b[i],
    decreases k,
{
    if k > 0 {
        lemma_blocks_agree(run, device, digest, is_m31, a, a_counters, b, b_counters, k - 1);
        let i = k - 1;
        assert(drawn(run, digest, is_m31, a_counters[i], a_counters[i + 1], a[i]));
        assert(drawn(run, digest, is_m31, b_counters[i], b_counters[i + 1], b[i]));
        lemma_drawn_once(
            run,
            device,
            digest,
            is_m31,
            a_counters[i],
            a_counters[k],
            a[i],
            b_counters[k],
            b[i],
        );
    }
}

/// The numbers of draws grow.
proof fn lemma_counters_grow<F: Fn(Plan) -> [u32; 8]>(
    run: F,
    digest: Seq<u32>,
    is_m31: bool,
    blocks: Seq<Seq<BaseField>>,
    counters: Seq<int>,
    i: int,
)
    requires
        drawn_blocks(run, digest, is_m31, blocks, counters),
        0 <= i < counters.len(),
    ensures
        counters[i] <= counters.last(),
    decreases counters.len() - i,
{
    if i < counters.len() - 1 {
        assert(drawn(run, digest, is_m31, counters[i], counters[i + 1], blocks[i]));
        lemma_counters_grow(run, digest, is_m31, blocks, counters, i + 1);
    }
}

/// Where the draws come to an end, no block follows.
proof fn lemma_no_block_follows<F: Fn(Plan) -> [u32; 8]>(
    run: F,
    device: spec_fn(kernel::PlanView) -> [u32; 8],
    digest: Seq<u32>,
    is_m31: bool,
    blocks: Seq<Seq<BaseField>>,
    counters: Seq<int>,
    k: int,
)
    requires
        answers(run, device),
        drawn_blocks(run, digest, is_m31, blocks, counters),
        counters.last() <= u32::MAX,
        0 <= k <= blocks.len(),
        all_rejected(run, digest, is_m31, counters[k]),
    ensures
        k == blocks.len(),
{
    if k < blocks.len() {
        assert(drawn(run, digest, is_m31, counters[k], counters[k + 1], blocks[k]));
        lemma_counters_grow(run, digest, is_m31, blocks, counters, k + 1);
        lemma_not_both(run, device, digest, is_m31, counters[k + 1] - 1, blocks[k]);
        assert(rejected(run, digest, is_m31, counters[k + 1] - 1));
    }
}

/// Where the device's words are a function of the plan, drawing fewer elements gives the
/// first of those that drawing more gives.
pub proof fn law_fewer_draws_are_a_prefix<F: Fn(Plan) -> [u32; 8]>(
    run: F,
    device: spec_fn(kernel::PlanView) -> [u32; 8],
    digest: Seq<u32>,
    is_m31: bool,
    first: int,
    n: int,
    felts: Seq<SecureField>,
    next: u32,
    m: int,
    fewer: Option<Seq<SecureField>>,
    fewer_next: int,
)
    requires
        answers(run, device),
        0 <= m <= n,
        felts_drawn(run, digest, is_m31, first, next as int, n, Some(felts)),
        felts_drawn(run, digest, is_m31, first, fewer_next, m, fewer),
    ensures
        fewer == Some(felts.take(m)),
{
    let (blocks, counters) = choose|blocks: Seq<Seq<BaseField>>, counters: Seq<int>|
        #[trigger] drawn_blocks(run, digest, is_m31, blocks, counters) && {
            &&& blocks.len() == (n + 1) / 2
            &&& counters[0] == first
            &&& counters.last() == next
            &&& forall|i: int|
                0 <= i < n ==> #[trigger] felts[i] == felt_at(blocks[i / 2], 4 * (i % 2))
        };
    match fewer {
        Some(found) => {
            let (few, few_counters) = choose|few: Seq<Seq<BaseField>>, few_counters: Seq<int>|
                #[trigger] drawn_blocks(run, digest, is_m31, few, few_counters) && {
                    &&& few.len() == (m + 1) / 2
                    &&& few_counters[0] == first
                    &&& few_counters.last() == fewer_next
                    &&& forall|i: int|
                        0 <= i < m ==> #[trigger] found[i] == felt_at(few[i / 2], 4 * (i % 2))
                };
            lemma_blocks_agree(
                run,
                device,
                digest,
                is_m31,
                few,
                few_counters,
                blocks,
                counters,
                few.len() as int,
            );
            assert forall|i: int| 0 <= i < m implies found[i] == felts[i] by {
                assert(few[i / 2] == blocks[i / 2]);
            }
            assert(found =~= felts.take(m));
        },
        None => {
            let (few, few_counters) = choose|few: Seq<Seq<BaseField>>, few_counters: Seq<int>|
                #[trigger] drawn_blocks(run, digest, is_m31, few, few_counters) && {
                    &&& few.len() < (m + 1) / 2
                    &&& few_counters[0] == first
                    &&& all_rejected(run, digest, is_m31, few_counters.last())
                };
            let k = few.len() as int;
            lemma_blocks_agree(
                run,
                device,
                digest,
                is_m31,
                few,
                few_counters,
                blocks,
                counters,
                k,
            );
            lemma_no_block_follows(run, device, digest, is_m31, blocks, counters, k);
        },
    }
}

/// Where the device's words are a function of the plan, the first of several elements that
/// are drawn is the one that drawing a single element gives.
pub proof fn law_single_draw_is_first<F: Fn(Plan) -> [u32; 8]>(
    run: F,
    device: spec_fn(kernel::PlanView) -> [u32; 8],
    digest: Seq<u32>,
    is_m31: bool,
    first: int,
    n: int,
    felts: Seq<SecureField>,
    next: u32,
    single: Option<SecureField>,
    single_next: int,
)
    requires
        answers(run, device),
        n > 0,
        felts_drawn(run, digest, is_m31, first, next as int, n, Some(felts)),
        felt_drawn(run, digest, is_m31, first, single_next, single),
    ensures
        single == Some(felts[0]),
{
    let (blocks, counters) = choose|blocks: Seq<Seq<BaseField>>, counters: Seq<int>|
        #[trigger] drawn_blocks(run, digest, is_m31, blocks, counters) && {
            &&& blocks.len() == (n + 1) / 2
            &&& counters[0] == first
            &&& counters.last() == next
            &&& forall|i: int|
                0 <= i < n ==> #[trigger] felts[i] == felt_at(blocks[i / 2], 4 * (i % 2))
        };
    let zero = 0int;
    assert(drawn(run, digest, is_m31, counters[zero], counters[zero + 1], blocks[zero]));
    assert(felts[0] == felt_at(blocks[0], 0));
    match single {
        Some(felt) => {
            let block = choose|block: Seq<BaseField>|
                {
                    &&& #[trigger] drawn(run, digest, is_m31, first, single_next, block)
                    &&& felt == felt_at(block, 0)
                };
            lemma_drawn_once(
                run,
                device,
                digest,
                is_m31,
                first,
                single_next,
                block,
                counters[1],
                blocks[0],
            );
        },
        None => {
            lemma_no_block_follows(run, device, digest, is_m31, blocks, counters, 0);
        },
    }
}

/// What a launch that mixes elements hashes: the words that it binds, as many of the second
/// buffer as there are elements.
pub open spec fn mixed_bytes(plan: kernel::PlanView) -> Seq<u8> {
    let args = plan.dispatches[0].args;
    let n = planned_transform::arg_number(args[2]);
    byte_order::le_words(planned_transform::arg_words(plan.buffers, args[0]))
        + byte_order::le_words(planned_transform::arg_words(plan.buffers, args[1]).take(4 * n))
}

/// The device mixes elements with a hash function of the words that are bound, plain or
/// reduced as it is told.
pub open spec fn mixes_by_hashing<F: FnOnce(Plan) -> [u32; 8]>(
    run: F,
    function: spec_fn(bool, Seq<u8>) -> Blake2sHash,
) -> bool {
    forall|plan: Plan, words: [u32; 8]|
        {
            &&& #[trigger] call_ensures(run, (plan,), words)
            &&& plan@.dispatches.len() == 1
            &&& plan@.dispatches[0].kernel == Kernel::Blake2sChannelMixFelts
        } ==> match plan@.dispatches[0].args[3] {
            Arg::Flag(is_m31) => function(is_m31, mixed_bytes(plan@)).has_words(words@),
            _ => true,
        }
}

/// Mixing elements on the device and on the processor gives the same digest, where both hash
/// with one function.
pub proof fn law_mixing_agrees<
    H: FnOnce(Vec<u8>) -> Blake2sHash,
    F: FnOnce(Plan) -> [u32; 8],
>(
    hash: H,
    run: F,
    function: spec_fn(bool, Seq<u8>) -> Blake2sHash,
    digest: Seq<u32>,
    felts: Seq<SecureField>,
    is_m31: bool,
    result: Blake2sHash,
    by_processor: [u32; 8],
    by_device: [u32; 8],
)
    requires
        felts.len() <= u32::MAX,
        computes(hash, |bytes: Seq<u8>| function(is_m31, bytes)),
        mixes_by_hashing(run, function),
        hashed(
            hash,
            MetalBlake2sChannelGeneric::<false>::mix_preimage(digest, columns::felt_words(felts)),
            result,
        ),
        result.has_words(by_processor@),
        ran(run, mix_felts_plan(digest, felts, is_m31), by_device),
    ensures
        by_processor@ == by_device@,
{
    let plan = mix_felts_plan(digest, felts, is_m31);
    let words = columns::felt_words(felts);
    let args = plan.dispatches[0].args;
    assert(planned_transform::arg_words(plan.buffers, args[0]) =~= digest);
    assert(planned_transform::arg_words(plan.buffers, args[1]) =~= words);
    assert(words.take((4 * felts.len()) as int) =~= words);
    assert(mixed_bytes(plan) == byte_order::le_words(digest) + byte_order::le_words(words));
    assert(function(is_m31, mixed_bytes(plan)).has_words(by_device@));
    assert(result == function(is_m31, mixed_bytes(plan)));
    byte_order::lemma_le_words_injective(by_processor@, by_device@);
}

/// The lowest 128 bits of a little-endian number end in `n` zeros.
pub open spec fn trailing_zero_bits(bytes: Seq<u8>, n: int) -> bool {
    n <= 128 && forall|j: int| 0 <= j < n ==> #[trigger] bit_of(bytes, j) == 0
}

/// Whether the lowest 128 bits of a little-endian number end in `n` zeros.
fn has_trailing_zero_bits(bytes: &[u8; 32], n: u32) -> (r: bool)
    ensures
        r == trailing_zero_bits(bytes@, n as int),
{
    if n > 128 {
        return false;
    }
    let mut j: u32 = 0;
    while j < n
        invariant
            j <= n <= 128,
            forall|k: int| 0 <= k < j ==> #[trigger] bit_of(bytes@, k) == 0,
        decreases n - j,
    {
        let byte: u8 = bytes[(j / 8) as usize];
        let unit: u64 = crate::utils::pow2_u64(j % 8);
        proof {
            lemma_pow2_pos((j % 8) as nat);
        }
        let bit: u64 = ((byte as u64) / unit) % 2;
        assert(bit == bit_of(bytes@, j as int));
        if bit != 0 {
            return false;
        }
        j = j + 1;
    }
    true
}

impl<const IS_M31_OUTPUT: bool> Default for MetalBlake2sChannelGeneric<IS_M31_OUTPUT> {
    fn default() -> (r: Self)
        ensures
            r.digest_words@ == Seq::new(8, |i: int| 0u32),
            r.n_draws == 0,
    {
        Self::new()
    }
}

impl<const IS_M31_OUTPUT: bool> Clone for MetalBlake2sChannelGeneric<IS_M31_OUTPUT> {
    fn clone(&self) -> (r: Self)
        ensures
            r == *self,
    {
        MetalBlake2sChannelGeneric { digest_words: self.digest_words, n_draws: self.n_draws }
    }
}

/// Mixes Merkle roots into a channel.
#[derive(Debug, Default)]
pub struct MetalBlake2sMerkleChannelGeneric<const IS_M31_OUTPUT: bool>;

/// Mixes Merkle roots into a channel with plain hashes.
pub type MetalBlake2sMerkleChannel = MetalBlake2sMerkleChannelGeneric<false>;

/// Mixes Merkle roots into a channel with reduced hashes.
pub type MetalBlake2sM31MerkleChannel = MetalBlake2sMerkleChannelGeneric<true>;

impl<const IS_M31_OUTPUT: bool> MetalBlake2sMerkleChannelGeneric<IS_M31_OUTPUT> {
    /// Mixes a root into a channel's digest.
    pub fn mix_root<F: FnOnce(Plan) -> [u32; 8]>(
        channel: &mut MetalBlake2sChannelGeneric<IS_M31_OUTPUT>,
        root: Blake2sHash,
        run: F,
    )
        requires
            forall|words: Seq<u32>| #[trigger]
                root.has_words(words) ==> takes(
                    run,
                    mix_root_plan(old(channel).digest_words@, words, IS_M31_OUTPUT),
                ),
        ensures
            forall|words: Seq<u32>| #[trigger]
                root.has_words(words) ==> ran(
                    run,
                    mix_root_plan(old(channel).digest_words@, words, IS_M31_OUTPUT),
                    final(channel).digest_words,
                ),
            final(channel).n_draws == 0,
    {
        channel.gpu_mix_root(&root, run);
    }
}

/// The digest that is read after an update is the one that was written.
pub proof fn law_digest_roundtrip(written: Blake2sHash, read: Blake2sHash, words: Seq<u32>)
    requires
        written.has_words(words),
        read.has_words(words),
    ensures
        read.0@ == written.0@,
{
}

/// Every element that is drawn is canonical.
pub proof fn law_drawn_felts_canonical(words: Seq<u32>, i: int)
    requires
        0 <= i < words.len(),
    ensures
        draw_felts(words)[i].wf(),
        draw_felts(words)[i].0 == fields::modp(words[i] as int),
{
}

/// A residue is drawn as often as any other: of the words in range, exactly two stand for
/// each.
pub proof fn law_draws_are_unbiased(residue: int, word: int)
    requires
        0 <= residue < P,
        0 <= word < 2 * P,
    ensures
        fields::modp(word) == residue <==> word == residue || word == residue + P,
{
}

/// The device draws with a function of the words that are bound as the digest, the number of
/// the draw and the byte that comes with it, plain or reduced as it is told.
pub open spec fn draws_by_hashing<F: FnOnce(Plan) -> [u32; 8]>(
    run: F,
    function: spec_fn(bool, Seq<u32>, u32, u8) -> Seq<u32>,
) -> bool {
    forall|plan: Plan, words: [u32; 8]|
        {
            &&& #[trigger] call_ensures(run, (plan,), words)
            &&& plan@.dispatches.len() == 1
            &&& plan@.dispatches[0].kernel == Kernel::Blake2sChannelDraw
        } ==> {
            let args = plan@.dispatches[0].args;
            match (args[1], args[2], args[3]) {
                (Arg::U32(n), Arg::U8(byte), Arg::Flag(is_m31)) => words@ == function(
                    is_m31,
                    planned_transform::arg_words(plan@.buffers, args[0]),
                    n,
                    byte,
                ),
                _ => true,
            }
        }
}

/// What is drawn from a channel comes from its own digest and the number of the draw: where
/// the device hashes the words that it is given, the words drawn are the hash of the digest
/// and the number, with a zero byte.
pub proof fn law_draws_hash_the_digest<F: FnOnce(Plan) -> [u32; 8]>(
    run: F,
    function: spec_fn(bool, Seq<u32>, u32, u8) -> Seq<u32>,
    digest: Seq<u32>,
    n_draws: u32,
    is_m31: bool,
    words: [u32; 8],
)
    requires
        draws_by_hashing(run, function),
        ran(run, draw_plan(digest, n_draws, is_m31), words),
    ensures
        words@ == function(is_m31, digest, n_draws, 0),
{
    let plan = draw_plan(digest, n_draws, is_m31);
    let args = plan.dispatches[0].args;
    assert(planned_transform::arg_words(plan.buffers, args[0]) =~= digest);
}

/// Where the device hashes the words that it is given, the element that is drawn is the first
/// half of the hash of the channel's digest and the number of the first draw whose words are
/// all in range.
pub proof fn law_element_comes_from_digest<F: Fn(Plan) -> [u32; 8]>(
    run: F,
    function: spec_fn(bool, Seq<u32>, u32, u8) -> Seq<u32>,
    digest: Seq<u32>,
    is_m31: bool,
    first: int,
    next: int,
    felt: SecureField,
)
    requires
        draws_by_hashing(run, function),
        0 <= first,
        next <= u32::MAX,
        felt_drawn(run, digest, is_m31, first, next, Some(felt)),
    ensures
        ({
            let words = |n: int| function(is_m31, digest, n as u32, 0);
            let last = words(next - 1);
            &&& first < next
            &&& felt@ == (fields::Coords {
                c0: fields::modp(last[0] as int),
                c1: fields::modp(last[1] as int),
                c2: fields::modp(last[2] as int),
                c3: fields::modp(last[3] as int),
            })
            &&& forall|i: int| 0 <= i < 8 ==> #[trigger] last[i] < 2 * P
            &&& forall|n: int|
                first <= n < next - 1 ==> reaches_twice_modulus(#[trigger] words(n))
        }),
{
    let felts = choose|felts: Seq<BaseField>|
        {
            &&& #[trigger] drawn(run, digest, is_m31, first, next, felts)
            &&& felt == felt_at(felts, 0)
        };
    let words = |n: int| function(is_m31, digest, n as u32, 0);
    lemma_accepted_words(run, function, digest, is_m31, next - 1, felts);
    assert forall|n: int| first <= n < next - 1 implies reaches_twice_modulus(
        #[trigger] words(n),
    ) by {
        assert(rejected(run, digest, is_m31, n));
        lemma_rejected_words(run, function, digest, is_m31, n);
    }
}

/// A word is twice the modulus or more.
pub open spec fn reaches_twice_modulus(words: Seq<u32>) -> bool {
    exists|i: int| 0 <= i < words.len() && #[trigger] words[i] >= 2 * P
}

/// The words of a draw that was accepted.
proof fn lemma_accepted_words<F: Fn(Plan) -> [u32; 8]>(
    run: F,
    function: spec_fn(bool, Seq<u32>, u32, u8) -> Seq<u32>,
    digest: Seq<u32>,
    is_m31: bool,
    n: int,
    felts: Seq<BaseField>,
)
    requires
        draws_by_hashing(run, function),
        accepted(run, digest, is_m31, n, felts),
    ensures
        ({
            let words = function(is_m31, digest, n as u32, 0);
            &&& words.len() == 8
            &&& felts.len() == 8
            &&& forall|i: int| 0 <= i < 8 ==> #[trigger] words[i] < 2 * P
            &&& forall|i: int|
                0 <= i < 8 ==> (#[trigger] felts[i]).0 == fields::modp(words[i] as int)
        }),
{
    let words = choose|words: [u32; 8]|
        #[trigger] ran(run, draw_plan(digest, n as u32, is_m31), words) && in_range(words@)
            && felts == draw_felts(words@);
    law_draws_hash_the_digest(run, function, digest, n as u32, is_m31, words);
    assert forall|i: int| 0 <= i < 8 implies (#[trigger] felts[i]).0 == fields::modp(
        words@[i] as int,
    ) by {
        law_drawn_felts_canonical(words@, i);
    }
}

/// The words of a draw that was rejected.
proof fn lemma_rejected_words<F: Fn(Plan) -> [u32; 8]>(
    run: F,
    function: spec_fn(bool, Seq<u32>, u32, u8) -> Seq<u32>,
    digest: Seq<u32>,
    is_m31: bool,
    n: int,
)
    requires
        draws_by_hashing(run, function),
        rejected(run, digest, is_m31, n),
    ensures
        reaches_twice_modulus(function(is_m31, digest, n as u32, 0)),
{
    let words = choose|words: [u32; 8]|
        #[trigger] ran(run, draw_plan(digest, n as u32, is_m31), words) && !in_range(words@);
    law_draws_hash_the_digest(run, function, digest, n as u32, is_m31, words);
    let i = choose|i: int| 0 <= i < words@.len() && !(#[trigger] words@[i] < 2 * P);
    assert(function(is_m31, digest, n as u32, 0)[i] >= 2 * P);
}

/// Where the device hashes the words that it is given, element `i` of those that are drawn is
/// half `i % 2` of the hash of the channel's digest and the number of draw `i / 2` among the
/// draws whose words are all in range; the draws between are not.
pub proof fn law_elements_come_from_digest<F: Fn(Plan) -> [u32; 8]>(
    run: F,
    function: spec_fn(bool, Seq<u32>, u32, u8) -> Seq<u32>,
    digest: Seq<u32>,
    is_m31: bool,
    first: int,
    next: int,
    felts: Seq<SecureField>,
)
    requires
        draws_by_hashing(run, function),
        0 <= first,
        next <= u32::MAX,
        felts_drawn(run, digest, is_m31, first, next, felts.len() as int, Some(felts)),
    ensures
        exists|counters: Seq<int>|
            #![trigger counters.len()]
            {
                let words = |n: int| function(is_m31, digest, n as u32, 0);
                &&& counters.len() == (felts.len() + 1) / 2 + 1
                &&& counters[0] == first
                &&& counters.last() == next
                &&& forall|k: int|
                    0 <= k < counters.len() - 1 ==> #[trigger] counters[k] < counters[k + 1]
                &&& forall|k: int, n: int|
                    0 <= k < counters.len() - 1 && #[trigger] counters[k] <= n < counters[k + 1]
                        - 1 ==> reaches_twice_modulus(#[trigger] words(n))
                &&& forall|i: int|
                    0 <= i < felts.len() ==> (#[trigger] felts[i])@ == {
                        let drawn_words = words(counters[i / 2 + 1] - 1);
                        let start = 4 * (i % 2);
                        fields::Coords {
                            c0: fields::modp(drawn_words[start] as int),
                            c1: fields::modp(drawn_words[start + 1] as int),
                            c2: fields::modp(drawn_words[start + 2] as int),
                            c3: fields::modp(drawn_words[start + 3] as int),
                        }
                    }
            },
{
    let count = felts.len() as int;
    let (blocks, counters) = choose|blocks: Seq<Seq<BaseField>>, counters: Seq<int>|
        #[trigger] drawn_blocks(run, digest, is_m31, blocks, counters) && {
            &&& blocks.len() == (count + 1) / 2
            &&& counters[0] == first
            &&& counters.last() == next
            &&& forall|i: int|
                0 <= i < count ==> #[trigger] felts[i] == felt_at(blocks[i / 2], 4 * (i % 2))
        };
    let words = |n: int| function(is_m31, digest, n as u32, 0);
    assert forall|k: int| 0 <= k < counters.len() - 1 implies #[trigger] counters[k] < counters[k
        + 1] by {
        assert(drawn(run, digest, is_m31, counters[k], counters[k + 1], blocks[k]));
    }
    assert forall|k: int, n: int|
        0 <= k < counters.len() - 1 && #[trigger] counters[k] <= n < counters[k + 1]
            - 1 implies reaches_twice_modulus(#[trigger] words(n)) by {
        assert(drawn(run, digest, is_m31, counters[k], counters[k + 1], blocks[k]));
        assert(rejected(run, digest, is_m31, n));
        lemma_rejected_words(run, function, digest, is_m31, n);
    }
    assert forall|i: int| 0 <= i < count implies (#[trigger] felts[i])@ == {
        let drawn_words = words(counters[i / 2 + 1] - 1);
        let start = 4 * (i % 2);
        fields::Coords {
            c0: fields::modp(drawn_words[start] as int),
            c1: fields::modp(drawn_words[start + 1] as int),
            c2: fields::modp(drawn_words[start + 2] as int),
            c3: fields::modp(drawn_words[start + 3] as int),
        }
    } by {
        let k = i / 2;
        assert(drawn(run, digest, is_m31, counters[k], counters[k + 1], blocks[k]));
        lemma_accepted_words(run, function, digest, is_m31, counters[k + 1] - 1, blocks[k]);
        assert(felts[i] == felt_at(blocks[k], 4 * (i % 2)));
    }
    assert(counters.len() == (felts.len() + 1) / 2 + 1);
}

/// Where the device mixes with a hash function of the words that are bound, mixing elements
/// hashes the channel's digest and then the words of the elements.
pub proof fn law_element_mix_hashes_digest<F: FnOnce(Plan) -> [u32; 8]>(
    run: F,
    function: spec_fn(bool, Seq<u8>) -> Blake2sHash,
    digest: Seq<u32>,
    felts: Seq<SecureField>,
    is_m31: bool,
    words: [u32; 8],
)
    requires
        felts.len() <= u32::MAX,
        mixes_by_hashing(run, function),
        ran(run, mix_felts_plan(digest, felts, is_m31), words),
    ensures
        function(
            is_m31,
            byte_order::le_words(digest) + byte_order::le_words(columns::felt_words(felts)),
        ).has_words(words@),
{
    let plan = mix_felts_plan(digest, felts, is_m31);
    let data = columns::felt_words(felts);
    let args = plan.dispatches[0].args;
    assert(planned_transform::arg_words(plan.buffers, args[0]) =~= digest);
    assert(planned_transform::arg_words(plan.buffers, args[1]) =~= data);
    assert(data.take((4 * felts.len()) as int) =~= data);
}

/// The device mixes a root with a hash function of the words that are bound, plain or reduced
/// as it is told.
pub open spec fn mixes_roots_by_hashing<F: FnOnce(Plan) -> [u32; 8]>(
    run: F,
    function: spec_fn(bool, Seq<u8>) -> Blake2sHash,
) -> bool {
    forall|plan: Plan, words: [u32; 8]|
        {
            &&& #[trigger] call_ensures(run, (plan,), words)
            &&& plan@.dispatches.len() == 1
            &&& plan@.dispatches[0].kernel == Kernel::Blake2sChannelMix
        } ==> {
            let args = plan@.dispatches[0].args;
            match args[2] {
                Arg::Flag(is_m31) => function(
                    is_m31,
                    byte_order::le_words(planned_transform::arg_words(plan@.buffers, args[0]))
                        + byte_order::le_words(
                        planned_transform::arg_words(plan@.buffers, args[1]),
                    ),
                ).has_words(words@),
                _ => true,
            }
        }
}

/// Where the device mixes with a hash function of the words that are bound, mixing a root
/// hashes the channel's digest and then the root.
pub proof fn law_root_mix_hashes_digest<F: FnOnce(Plan) -> [u32; 8]>(
    run: F,
    function: spec_fn(bool, Seq<u8>) -> Blake2sHash,
    digest: Seq<u32>,
    root: Blake2sHash,
    root_words: Seq<u32>,
    is_m31: bool,
    words: [u32; 8],
)
    requires
        mixes_roots_by_hashing(run, function),
        root.has_words(root_words),
        ran(run, mix_root_plan(digest, root_words, is_m31), words),
    ensures
        function(is_m31, byte_order::le_words(digest) + root.0@).has_words(words@),
{
    let plan = mix_root_plan(digest, root_words, is_m31);
    let args = plan.dispatches[0].args;
    assert(planned_transform::arg_words(plan.buffers, args[0]) =~= digest);
    assert(planned_transform::arg_words(plan.buffers, args[1]) =~= root_words);
}

/// What is hashed to mix words tells digests and words apart: it starts with the bytes of the
/// digest, and the rest are those of the words.
pub proof fn law_mixed_bytes_tell_apart(
    a: Seq<u32>,
    a_data: Seq<u32>,
    b: Seq<u32>,
    b_data: Seq<u32>,
)
    requires
        a.len() == b.len(),
        MetalBlake2sChannelGeneric::<false>::mix_preimage(a, a_data)
            == MetalBlake2sChannelGeneric::<false>::mix_preimage(b, b_data),
    ensures
        a == b,
        a_data == b_data,
        MetalBlake2sChannelGeneric::<false>::mix_preimage(a, a_data).take((4 * a.len()) as int)
            == byte_order::le_words(a),
{
    let x = byte_order::le_words(a) + byte_order::le_words(a_data);
    let y = byte_order::le_words(b) + byte_order::le_words(b_data);
    let n = (4 * a.len()) as int;
    assert(x.take(n) =~= byte_order::le_words(a));
    assert(y.take(n) =~= byte_order::le_words(b));
    assert(x.skip(n) =~= byte_order::le_words(a_data));
    assert(y.skip(n) =~= byte_order::le_words(b_data));
    byte_order::lemma_le_words_injective(a, b);
    byte_order::lemma_le_words_injective(a_data, b_data);
}

/// The number that bytes are, least significant first.
pub open spec fn le_number(bytes: Seq<u8>) -> int
    decreases bytes.len(),
{
    if bytes.len() == 0 {
        0
    } else {
        bytes[0] + 256 * le_number(bytes.skip(1))
    }
}

/// The bits of a number are those of its bytes.
proof fn lemma_bit_of_number(bytes: Seq<u8>, j: int)
    requires
        0 <= j < 8 * bytes.len(),
    ensures
        le_number(bytes) >= 0,
        (le_number(bytes) / pow2(j as nat) as int) % 2 == bit_of(bytes, j),
    decreases bytes.len(),
{
    let rest = le_number(bytes.skip(1));
    let b = bytes[0] as int;
    let n = le_number(bytes);
    lemma_number_nonnegative(bytes.skip(1));
    lemma2_to64();
    if j < 8 {
        let e = (8 - j) as nat;
        let q = pow2(j as nat) as int;
        lemma_pow2_pos(j as nat);
        lemma_pow2_adds(j as nat, e);
        lemma_pow2_unfold(e);
        let t = pow2((e - 1) as nat) * rest;
        assert(256 * rest == q * (2 * t)) by (nonlinear_arith)
            requires
                256 == q * pow2(e),
                pow2(e) == 2 * pow2((e - 1) as nat),
                t == pow2((e - 1) as nat) * rest,
        ;
        lemma_hoist_over_denominator(b, 2 * t, q as nat);
        assert(n / q == b / q + 2 * t);
        assert((b / q + 2 * t) % 2 == (b / q) % 2);
        assert(j / 8 == 0 && j % 8 == j);
    } else {
        let k = (j - 8) as nat;
        lemma_bit_of_number(bytes.skip(1), j - 8);
        lemma_pow2_adds(8, k);
        lemma_pow2_pos(k);
        lemma_div_denominator(n, 256, pow2(k) as int);
        lemma_fundamental_div_mod_converse(n, 256, rest, b);
        assert(bytes.skip(1)[(j - 8) / 8] == bytes[j / 8]);
        assert(j % 8 == (j - 8) % 8);
    }
}

proof fn lemma_number_nonnegative(bytes: Seq<u8>)
    ensures
        le_number(bytes) >= 0,
    decreases bytes.len(),
{
    if bytes.len() > 0 {
        lemma_number_nonnegative(bytes.skip(1));
    }
}

/// A hash proves `n` bits, up to 128, where its first sixteen bytes, as a little-endian
/// number, are a multiple of `2^n`.
pub proof fn law_trailing_zeros_divide(bytes: Seq<u8>, n: nat)
    requires
        bytes.len() >= 16,
    ensures
        trailing_zero_bits(bytes, n as int) <==> n <= 128 && le_number(bytes.take(16)) % (pow2(n)
            as int) == 0,
    decreases n,
{
    let low = bytes.take(16);
    let number = le_number(low);
    lemma2_to64();
    lemma_number_nonnegative(low);
    if n > 0 && n <= 128 {
        let m = (n - 1) as nat;
        let q = pow2(m) as int;
        law_trailing_zeros_divide(bytes, m);
        lemma_pow2_pos(m);
        lemma_pow2_unfold(n);
        lemma_bit_of_number(low, m as int);
        assert(bit_of(low, m as int) == bit_of(bytes, m as int));
        lemma_mod_breakdown(number, q, 2);
        assert(q * 2 == pow2(n));
        assert(number % (q * 2) == q * ((number / q) % 2) + number % q);
        lemma_mod_bound(number, q);
        let top = (number / q) % 2;
        assert(top == 0 || top == 1);
        assert(q * 0 == 0 && q * 1 == q);
        if trailing_zero_bits(bytes, n as int) {
            assert(bit_of(bytes, m as int) == 0);
        }
        if number % (q * 2) == 0 {
            assert forall|j: int| 0 <= j < n implies #[trigger] bit_of(bytes, j) == 0 by {
                if j < m {
                    assert(trailing_zero_bits(bytes, m as int));
                }
            }
        }
    } else if n == 0 {
        assert(number % 1 == 0);
    }
}

/// The check of a nonce: it passes where the hash of the hashed preimage and the nonce is, as
/// a number, a multiple of the power of two that was asked for.
pub proof fn law_nonce_check_divides<H: Fn(Vec<u8>) -> Blake2sHash>(
    hash: H,
    function: spec_fn(Seq<u8>) -> Blake2sHash,
    prefix: u32,
    digest: Seq<u32>,
    n_bits: u32,
    nonce: u64,
    verdict: bool,
)
    requires
        computes(hash, function),
        pow_verdict(hash, prefix, digest, n_bits, nonce, verdict),
    ensures
        ({
            let prefixed = function(
                grind::pow_preimage(prefix, byte_order::le_words(digest), n_bits),
            );
            let result = function(prefixed.0@ + byte_order::le64(nonce));
            verdict <==> n_bits <= 128 && le_number(result.0@.take(16)) % (pow2(n_bits as nat)
                as int) == 0
        }),
{
    let prefixed = function(grind::pow_preimage(prefix, byte_order::le_words(digest), n_bits));
    let result = function(prefixed.0@ + byte_order::le64(nonce));
    law_trailing_zeros_divide(result.0@, n_bits as nat);
}

/// The plans of a channel end in a buffer of eight words: the last argument of the launch binds
/// it.
pub proof fn law_channel_results_fit(
    digest: Seq<u32>,
    root: Seq<u32>,
    felts: Seq<SecureField>,
    n_draws: u32,
    is_m31: bool,
)
    ensures
        ({
            let mix = mix_root_plan(digest, root, is_m31);
            &&& mix.dispatches[0].args.last() == (Arg::Buffer { slot: 2, offset: 0 })
            &&& mix.buffers[2] == kernel::SourceView::Fresh(32)
        }),
        ({
            let draw = draw_plan(digest, n_draws, is_m31);
            &&& draw.dispatches[0].args.last() == (Arg::Buffer { slot: 1, offset: 0 })
            &&& draw.buffers[1] == kernel::SourceView::Fresh(32)
        }),
        ({
            let mix = mix_felts_plan(digest, felts, is_m31);
            &&& mix.dispatches[0].args.last() == (Arg::Buffer { slot: 2, offset: 0 })
            &&& mix.buffers[2] == kernel::SourceView::Fresh(32)
        }),
{
}

} // verus!
