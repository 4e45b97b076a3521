//! Merkle layers of hashes.

use crate::blake2s_hash::Blake2sHash;
use crate::device_memory;
use crate::fields::BaseField;
use crate::kernel;
use crate::kernel::{buffer_args, groups_for, whole, Arg, Kernel, Plan, Source};
use crate::packing;
use crate::packing::pack_columns;
use crate::thresholds::MIN_MERKLE_LOG_SIZE;
use crate::utils;
use crate::utils::{ilog2, pow2_u64};
use vstd::arithmetic::power2::*;
use vstd::prelude::*;

verus! {

/// Whether the device has filled a column.
#[derive(Debug)]
pub enum SyncState<C> {
    /// Its work is under way and has to be waited for.
    Pending(C),
    /// The column can be read.
    Synced,
}

/// A column of hashes in a buffer of the device.
#[derive(Debug)]
pub struct MetalBlake2sColumn<B, C> {
    pub buffer: B,
    pub len: usize,
    pub sync_state: SyncState<C>,
}

/// Eight words for each hash, in order.
pub open spec fn hash_words(hashes: Seq<Blake2sHash>, words: Seq<u32>) -> bool {
    &&& words.len() == 8 * hashes.len()
    &&& forall|i: int|
        0 <= i < hashes.len() ==> (#[trigger] hashes[i]).has_words(
            words.subrange(8 * i, 8 * i + 8),
        )
}

impl<B, C> MetalBlake2sColumn<B, C> {
    /// A column that the device is filling.
    pub fn from_gpu_pending(buffer: B, len: usize, cmd_buf: C) -> (r: MetalBlake2sColumn<B, C>)
        ensures
            r.buffer == buffer,
            r.len == len,
            r.sync_state == SyncState::Pending(cmd_buf),
    {
        MetalBlake2sColumn { buffer, len, sync_state: SyncState::Pending(cmd_buf) }
    }

    /// A column of the given hashes.
    pub fn from_cpu<F: FnOnce(Source) -> B>(hashes: &[Blake2sHash], new_buffer: F) -> (r:
        MetalBlake2sColumn<B, C>)
        requires
            forall|words: Vec<u32>|
                hash_words(hashes@, words@) ==> #[trigger] call_requires(
                    new_buffer,
                    (Source::Words(words),),
                ),
        ensures
            r.len == hashes.len(),
            r.sync_state is Synced,
            exists|words: Vec<u32>|
                hash_words(hashes@, words@) && #[trigger] call_ensures(
                    new_buffer,
                    (Source::Words(words),),
                    r.buffer,
                ),
    {
        let len: usize = hashes.len();
        let words = hashes_to_words(hashes);
        let ghost given = words;
        let buffer = new_buffer(Source::Words(words));
        let r = MetalBlake2sColumn { buffer, len, sync_state: SyncState::Synced };
        assert(call_ensures(new_buffer, (Source::Words(given),), r.buffer));
        r
    }

    /// Waits for the device where that is needed.
    pub fn ensure_synced<F: FnOnce(C)>(&mut self, wait: F)
        requires
            old(self).sync_state matches SyncState::Pending(cmd_buf) ==> call_requires(
                wait,
                (cmd_buf,),
            ),
        ensures
            final(self).sync_state is Synced,
            final(self).buffer == old(self).buffer,
            final(self).len == old(self).len,
            old(self).sync_state matches SyncState::Pending(cmd_buf) ==> call_ensures(
                wait,
                (cmd_buf,),
                (),
            ),
    {
        let mut state = SyncState::Synced;
        core::mem::swap(&mut state, &mut self.sync_state);
        if let SyncState::Pending(cmd_buf) = state {
            wait(cmd_buf);
        }
    }

    /// The hash at an index.  `read` gives the words of a buffer, and may rely on it that the
    /// device is done.
    pub fn read_hash<F: FnOnce(C), R: FnOnce(&B) -> Vec<u32>>(
        &mut self,
        index: usize,
        wait: F,
        read: R,
    ) -> (r: Blake2sHash)
        requires
            index < old(self).len,
            old(self).sync_state matches SyncState::Pending(cmd_buf) ==> call_requires(
                wait,
                (cmd_buf,),
            ),
            match old(self).sync_state {
                SyncState::Pending(cmd_buf) => call_ensures(wait, (cmd_buf,), ()) ==> call_requires(
                    read,
                    (&old(self).buffer,),
                ),
                SyncState::Synced => call_requires(read, (&old(self).buffer,)),
            },
            forall|words: Vec<u32>|
                #[trigger] call_ensures(read, (&old(self).buffer,), words) ==> words.len() == 8
                    * old(self).len,
        ensures
            final(self).sync_state is Synced,
            final(self).buffer == old(self).buffer,
            final(self).len == old(self).len,
            old(self).sync_state matches SyncState::Pending(cmd_buf) ==> call_ensures(
                wait,
                (cmd_buf,),
                (),
            ),
            exists|words: Vec<u32>| #[trigger]
                call_ensures(read, (&old(self).buffer,), words) && r.has_words(
                    words@.subrange(8 * index, 8 * index + 8),
                ),
    {
        self.ensure_synced(wait);
        let words = read(&self.buffer);
        assert(8 * index + 8 <= words.len()) by (nonlinear_arith)
            requires
                index < self.len,
                words.len() == 8 * self.len,
        ;
        hash_at(words.as_slice(), index)
    }

    /// All hashes.  `read` gives the words of a buffer, and may rely on it that the device is
    /// done.
    pub fn to_cpu<F: FnOnce(C), R: FnOnce(&B) -> Vec<u32>>(&mut self, wait: F, read: R) -> (r: Vec<
        Blake2sHash,
    >)
        requires
            old(self).sync_state matches SyncState::Pending(cmd_buf) ==> call_requires(
                wait,
                (cmd_buf,),
            ),
            match old(self).sync_state {
                SyncState::Pending(cmd_buf) => call_ensures(wait, (cmd_buf,), ()) ==> call_requires(
                    read,
                    (&old(self).buffer,),
                ),
                SyncState::Synced => call_requires(read, (&old(self).buffer,)),
            },
            forall|words: Vec<u32>|
                #[trigger] call_ensures(read, (&old(self).buffer,), words) ==> words.len() == 8
                    * old(self).len,
        ensures
            final(self).sync_state is Synced,
            final(self).buffer == old(self).buffer,
            final(self).len == old(self).len,
            old(self).sync_state matches SyncState::Pending(cmd_buf) ==> call_ensures(
                wait,
                (cmd_buf,),
                (),
            ),
            r.len() == old(self).len,
            exists|words: Vec<u32>| #[trigger]
                call_ensures(read, (&old(self).buffer,), words) && hash_words(r@, words@),
    {
        self.ensure_synced(wait);
        let words = read(&self.buffer);
        hashes_of(words.as_slice(), self.len)
    }

    /// The column's buffer, which need not be filled yet.
    pub fn buffer(&self) -> (r: &B)
        ensures
            *r == self.buffer,
    {
        &self.buffer
    }

    pub fn len(&self) -> (r: usize)
        ensures
            r == self.len,
    {
        self.len
    }
}

/// The words of hashes.
pub fn hashes_to_words(hashes: &[Blake2sHash]) -> (r: Vec<u32>)
    ensures
        hash_words(hashes@, r@),
{
    let mut data: Vec<u32> = Vec::new();
    for i in 0..hashes.len()
        invariant
            hash_words(hashes@.take(i as int), data@),
    {
        let ghost before = data@;
        let words = hashes[i].words();
        data.extend_from_slice(&words);
        proof {
            assert(data@ =~= before + words@);
            let taken = hashes@.take(i + 1);
            assert forall|k: int| 0 <= k < taken.len() implies (#[trigger] taken[k]).has_words(
                data@.subrange(8 * k, 8 * k + 8),
            ) by {
                if k < i {
                    assert(hashes@.take(i as int)[k].has_words(before.subrange(8 * k, 8 * k + 8)));
                    assert(data@.subrange(8 * k, 8 * k + 8) =~= before.subrange(8 * k, 8 * k + 8));
                } else {
                    assert(data@.subrange(8 * k, 8 * k + 8) =~= words@);
                }
            }
        }
    }
    assert(hashes@.take(hashes@.len() as int) =~= hashes@);
    data
}

/// The hash at an index of a column's words.
pub fn hash_at(output_data: &[u32], index: usize) -> (r: Blake2sHash)
    requires
        8 * index + 8 <= output_data.len(),
    ensures
        r.has_words(output_data@.subrange(8 * index, 8 * index + 8)),
{
    let hash_u32s: [u32; 8] = [
        output_data[index * 8],
        output_data[index * 8 + 1],
        output_data[index * 8 + 2],
        output_data[index * 8 + 3],
        output_data[index * 8 + 4],
        output_data[index * 8 + 5],
        output_data[index * 8 + 6],
        output_data[index * 8 + 7],
    ];
    assert(hash_u32s@ =~= output_data@.subrange(8 * index, 8 * index + 8));
    Blake2sHash::from_words(hash_u32s)
}

/// The hashes of a column's words.
pub fn hashes_of(output_data: &[u32], len: usize) -> (r: Vec<Blake2sHash>)
    requires
        output_data.len() == 8 * len,
    ensures
        r.len() == len,
        hash_words(r@, output_data@),
{
    let mut result: Vec<Blake2sHash> = Vec::new();
    for i in 0..len
        invariant
            output_data.len() == 8 * len,
            result.len() == i,
            forall|k: int|
                0 <= k < i ==> (#[trigger] result[k]).has_words(
                    output_data@.subrange(8 * k, 8 * k + 8),
                ),
    {
        result.push(hash_at(output_data, i));
    }
    result
}

/// What is read of a column is what was written: words that belong to two lists of hashes
/// belong to the same bytes.
pub proof fn law_hash_column_roundtrip(
    written: Seq<Blake2sHash>,
    read: Seq<Blake2sHash>,
    words: Seq<u32>,
)
    requires
        hash_words(written, words),
        hash_words(read, words),
    ensures
        written.len() == read.len(),
        forall|i: int| 0 <= i < read.len() ==> (#[trigger] read[i]).0@ == written[i].0@,
{
    assert forall|i: int| 0 <= i < read.len() implies (#[trigger] read[i]).0@ == written[i].0@ by {
        let w = words.subrange(8 * i, 8 * i + 8);
        assert(read[i].has_words(w));
        assert(written[i].has_words(w));
    }
}

/// The hashes of the leaves, as work for the device: all columns in one buffer, where each
/// starts, their log sizes, and the hashes in buffer 3.
pub open spec fn build_leaves_plan(
    cols: Seq<Seq<u32>>,
    lifting_log_size: u32,
    is_m31_output: bool,
) -> kernel::PlanView {
    let n_leaves = pow2(lifting_log_size as nat) as int;
    kernel::PlanView {
        buffers: seq![
            kernel::SourceView::Words(cols.flatten()),
            kernel::SourceView::Words(packing::offsets(cols)),
            kernel::SourceView::Words(packing::log_sizes(cols)),
            kernel::SourceView::Fresh((32 * n_leaves) as u64),
        ],
        dispatches: seq![
            kernel::DispatchView {
                kernel: Kernel::MerkleLeafLifted,
                args: kernel::first_buffers(4) + seq![
                    Arg::U32(cols.len() as u32),
                    Arg::U32(lifting_log_size),
                    Arg::Flag(is_m31_output),
                ],
                grid: kernel::spec_groups_for(n_leaves as u64),
            },
        ],
    }
}

/// Plans the hashes of the leaves.  There is no plan for few leaves or no columns, which the
/// processor hashes.
pub fn build_leaves(columns: &[&[BaseField]], lifting_log_size: u32, is_m31_output: bool) -> (r:
    Option<Plan>)
    requires
        lifting_log_size >= MIN_MERKLE_LOG_SIZE ==> {
            &&& lifting_log_size <= 58
            &&& forall|i: int| 0 <= i < columns.len() ==> (#[trigger] columns@[i])@.len() > 0
            &&& packing::words_before(packing::all_words(columns@), columns@.len() as int)
                <= usize::MAX
        },
    ensures
        r is None <==> lifting_log_size < MIN_MERKLE_LOG_SIZE || columns.len() == 0,
        r matches Some(plan) ==> plan@.wf() && plan@ == build_leaves_plan(
            packing::all_words(columns@),
            lifting_log_size,
            is_m31_output,
        ),
{
    if lifting_log_size < MIN_MERKLE_LOG_SIZE || columns.len() == 0 {
        return None;
    }
    let ghost expected = build_leaves_plan(
        packing::all_words(columns@),
        lifting_log_size,
        is_m31_output,
    );
    proof {
        lemma2_to64();
        lemma2_to64_rest();
        if lifting_log_size < 58 {
            lemma_pow2_strictly_increases(lifting_log_size as nat, 58);
        }
    }
    let n_leaves: u64 = pow2_u64(lifting_log_size);
    let packed = pack_columns(columns);
    let mut plan = Plan::new();
    plan.add_buffer(Source::Words(packed.words));
    plan.add_buffer(Source::Words(packed.offsets));
    plan.add_buffer(Source::Words(packed.log_sizes));
    plan.add_buffer(Source::Fresh(n_leaves * 8 * 4));
    let mut args = buffer_args(4);
    args.push(Arg::U32(columns.len() as u32));
    args.push(Arg::U32(lifting_log_size));
    args.push(Arg::Flag(is_m31_output));
    assert(args@ =~= expected.dispatches[0].args);
    plan.dispatch(Kernel::MerkleLeafLifted, args, groups_for(n_leaves));
    assert(plan@ =~= expected);
    Some(plan)
}

/// The next layer of hashes, as work for the device on the caller's buffer; the hashes are in
/// buffer 1.
pub open spec fn next_layer_plan(num_parents: int, is_m31_output: bool) -> kernel::PlanView {
    kernel::PlanView {
        buffers: seq![
            kernel::SourceView::Input(0),
            kernel::SourceView::Fresh((32 * num_parents) as u64),
        ],
        dispatches: seq![
            kernel::DispatchView {
                kernel: Kernel::Merkle,
                args: seq![
                    kernel::spec_whole(0),
                    kernel::spec_whole(1),
                    Arg::Flag(is_m31_output),
                    Arg::U32(num_parents as u32),
                ],
                grid: kernel::spec_groups_for(num_parents as u64),
            },
        ],
    }
}

/// Plans the next layer of hashes, and gives the number of its hashes.  There is no plan for
/// a short layer, which the processor hashes.
pub fn build_next_layer(prev_len: usize, is_m31_output: bool) -> (r: Option<(Plan, usize)>)
    requires
        2 <= prev_len < 0x1000_0000_0000_0000,
    ensures
        ({
            let log_size = utils::floor_log2(prev_len as int) - 1;
            &&& r is None <==> log_size < MIN_MERKLE_LOG_SIZE
            &&& r matches Some((plan, num_parents)) ==> num_parents == pow2(log_size as nat)
                && plan@.wf() && plan@ == next_layer_plan(num_parents as int, is_m31_output)
        }),
{
    let log: u32 = ilog2(prev_len);
    proof {
        lemma2_to64();
        lemma2_to64_rest();
        lemma_pow2_unfold(log as nat);
        if log >= 60 {
            if log > 60 {
                lemma_pow2_strictly_increases(60, log as nat);
            }
        }
        if log < 59 {
            lemma_pow2_strictly_increases(log as nat, 59);
        }
    }
    let log_size: u32 = log - 1;
    if log_size < MIN_MERKLE_LOG_SIZE {
        return None;
    }
    let num_parents: u64 = pow2_u64(log_size);
    let ghost expected = next_layer_plan(num_parents as int, is_m31_output);
    let mut plan = Plan::new();
    plan.add_buffer(Source::Input(0));
    plan.add_buffer(Source::Fresh(num_parents * 8 * 4));
    let args = vec![whole(0), whole(1), Arg::Flag(is_m31_output), Arg::U32(num_parents as u32)];
    assert(args@ =~= expected.dispatches[0].args);
    plan.dispatch(Kernel::Merkle, args, groups_for(num_parents));
    assert(plan@ =~= expected);
    Some((plan, num_parents as usize))
}

/// The words of a hash in a buffer of hashes.
pub open spec fn hash_part(words: Seq<u32>, i: int) -> Seq<u32> {
    words.subrange(8 * i, 8 * i + 8)
}

/// What the launch of a layer makes of the buffers: each parent is the hash of its two
/// children.  `node` hashes two children to eight words.
pub open spec fn layer_effect(
    node: spec_fn(Seq<u32>, Seq<u32>, bool) -> Seq<u32>,
) -> spec_fn(kernel::DispatchView, Seq<Seq<u32>>) -> Seq<Seq<u32>> {
    |d: kernel::DispatchView, mem: Seq<Seq<u32>>|
        match (d.kernel, d.args[2], d.args[3]) {
            (Kernel::Merkle, Arg::Flag(is_m31), Arg::U32(size)) => {
                let children = device_memory::bound(mem, d.args[0]);
                mem.update(
                    device_memory::slot_of(d.args[1]),
                    Seq::new(
                        (8 * vstd::math::min(size as int, kernel::launched(d.grid))) as nat,
                        |j: int|
                            node(
                                hash_part(children, 2 * (j / 8)),
                                hash_part(children, 2 * (j / 8) + 1),
                                is_m31,
                            )[j % 8],
                    ),
                )
            },
            _ => mem,
        }
}

/// Performing the plan of a layer hashes pairs: hash `i` of the new layer is the hash of the
/// hashes `2 i` and `2 i + 1` of the layer below.
pub proof fn law_layer_hashes_pairs(
    node: spec_fn(Seq<u32>, Seq<u32>, bool) -> Seq<u32>,
    num_parents: int,
    is_m31_output: bool,
    children: Seq<u32>,
    mem: Seq<Seq<u32>>,
    i: int,
)
    requires
        forall|a: Seq<u32>, b: Seq<u32>, m: bool| (#[trigger] node(a, b, m)).len() == 8,
        num_parents <= u32::MAX,
        device_memory::loaded(
            next_layer_plan(num_parents, is_m31_output).buffers,
            seq![children],
            mem,
        ),
        0 <= i < num_parents,
    ensures
        ({
            let out = device_memory::perform(
                layer_effect(node),
                next_layer_plan(num_parents, is_m31_output).dispatches,
                mem,
            );
            &&& out[1].len() == 8 * num_parents
            &&& hash_part(out[1], i) == node(
                hash_part(children, 2 * i),
                hash_part(children, 2 * i + 1),
                is_m31_output,
            )
        }),
{
    let plan = next_layer_plan(num_parents, is_m31_output);
    let d = plan.dispatches[0];
    assert(mem[0] == children);
    kernel::law_groups_cover_threads(num_parents as u64);
    device_memory::lemma_perform_one(layer_effect(node), plan.dispatches, mem);
    let out = layer_effect(node)(d, mem);
    assert(d.args[0] == kernel::spec_whole(0));
    assert(d.args[1] == kernel::spec_whole(1));
    assert(out[1].len() == 8 * num_parents);
    let parent = node(
        hash_part(children, 2 * i),
        hash_part(children, 2 * i + 1),
        is_m31_output,
    );
    assert forall|k: int| 0 <= k < 8 implies #[trigger] out[1][8 * i + k] == parent[k] by {
        assert((8 * i + k) / 8 == i && (8 * i + k) % 8 == k);
    }
    assert(hash_part(out[1], i) =~= parent);
}

/// The words of a row of columns, as a launch for leaves finds them in packed columns.
/// `place` gives the index in a column of the value at a row, from the row, the column's log
/// size and that of the leaves.
pub open spec fn packed_row(
    place: spec_fn(int, int, int) -> int,
    packed: Seq<u32>,
    starts: Seq<u32>,
    logs: Seq<u32>,
    lifting_log_size: u32,
    n: nat,
    i: int,
) -> Seq<u32> {
    Seq::new(n, |c: int| packed[starts[c] + place(i, logs[c] as int, lifting_log_size as int)])
}

/// What the launch for leaves makes of the buffers: each leaf is the hash of its row.  `leaf`
/// hashes a row to eight words.
pub open spec fn leaves_effect(
    leaf: spec_fn(Seq<u32>, bool) -> Seq<u32>,
    place: spec_fn(int, int, int) -> int,
) -> spec_fn(kernel::DispatchView, Seq<Seq<u32>>) -> Seq<Seq<u32>> {
    |d: kernel::DispatchView, mem: Seq<Seq<u32>>|
        match (d.kernel, d.args[4], d.args[5], d.args[6]) {
            (Kernel::MerkleLeafLifted, Arg::U32(n), Arg::U32(log_size), Arg::Flag(is_m31)) => {
                let packed = device_memory::bound(mem, d.args[0]);
                let starts = device_memory::bound(mem, d.args[1]);
                let logs = device_memory::bound(mem, d.args[2]);
                let n_leaves = pow2(log_size as nat) as int;
                mem.update(
                    device_memory::slot_of(d.args[3]),
                    Seq::new(
                        (8 * vstd::math::min(n_leaves, kernel::launched(d.grid))) as nat,
                        |j: int|
                            leaf(
                                packed_row(
                                    place,
                                    packed,
                                    starts,
                                    logs,
                                    log_size,
                                    n as nat,
                                    j / 8,
                                ),
                                is_m31,
                            )[j % 8],
                    ),
                )
            },
            _ => mem,
        }
}

/// Performing the plan of leaves hashes rows: hash `i` is the hash of the value of each column
/// at row `i`, whatever the columns' sizes are.
pub proof fn law_leaves_hash_rows(
    leaf: spec_fn(Seq<u32>, bool) -> Seq<u32>,
    place: spec_fn(int, int, int) -> int,
    cols: Seq<Seq<u32>>,
    lifting_log_size: u32,
    is_m31_output: bool,
    mem: Seq<Seq<u32>>,
    i: int,
)
    requires
        forall|row: Seq<u32>, m: bool| (#[trigger] leaf(row, m)).len() == 8,
        lifting_log_size <= 58,
        cols.len() <= u32::MAX,
        packing::words_before(cols, cols.len() as int) <= u32::MAX,
        device_memory::loaded(
            build_leaves_plan(cols, lifting_log_size, is_m31_output).buffers,
            Seq::empty(),
            mem,
        ),
        0 <= i < pow2(lifting_log_size as nat),
        forall|c: int|
            0 <= c < cols.len() ==> 0 <= #[trigger] place(
                i,
                packing::log_sizes(cols)[c] as int,
                lifting_log_size as int,
            ) < cols[c].len(),
    ensures
        ({
            let out = device_memory::perform(
                leaves_effect(leaf, place),
                build_leaves_plan(cols, lifting_log_size, is_m31_output).dispatches,
                mem,
            );
            &&& out[3].len() == 8 * pow2(lifting_log_size as nat)
            &&& hash_part(out[3], i) == leaf(
                Seq::new(
                    cols.len(),
                    |c: int|
                        cols[c][place(
                            i,
                            packing::log_sizes(cols)[c] as int,
                            lifting_log_size as int,
                        )],
                ),
                is_m31_output,
            )
        }),
{
    let plan = build_leaves_plan(cols, lifting_log_size, is_m31_output);
    let d = plan.dispatches[0];
    let n_leaves = pow2(lifting_log_size as nat) as int;
    lemma2_to64();
    lemma2_to64_rest();
    if lifting_log_size < 58 {
        lemma_pow2_strictly_increases(lifting_log_size as nat, 58);
    }
    assert(mem[0] == cols.flatten());
    assert(mem[1] == packing::offsets(cols));
    assert(mem[2] == packing::log_sizes(cols));
    kernel::law_groups_cover_threads(n_leaves as u64);
    device_memory::lemma_perform_one(leaves_effect(leaf, place), plan.dispatches, mem);
    let out = leaves_effect(leaf, place)(d, mem);
    assert(d.args[0] == kernel::spec_whole(0));
    assert(d.args[1] == kernel::spec_whole(1));
    assert(d.args[2] == kernel::spec_whole(2));
    assert(d.args[3] == kernel::spec_whole(3));
    assert(out[3].len() == 8 * n_leaves);
    let row = packed_row(place, mem[0], mem[1], mem[2], lifting_log_size, cols.len(), i);
    let expected = Seq::new(
        cols.len(),
        |c: int|
            cols[c][place(i, packing::log_sizes(cols)[c] as int, lifting_log_size as int)],
    );
    assert forall|c: int| 0 <= c < cols.len() implies row[c] == expected[c] by {
        let at = place(i, packing::log_sizes(cols)[c] as int, lifting_log_size as int);
        let start = packing::words_before(cols, c);
        packing::law_packed_column_found(cols, c);
        packing::lemma_words_before_monotone(cols, c, cols.len() as int);
        assert(cols.flatten().subrange(start, start + cols[c].len())[at] == cols[c][at]);
    }
    assert(row =~= expected);
    let hashed = leaf(row, is_m31_output);
    assert forall|k: int| 0 <= k < 8 implies #[trigger] out[3][8 * i + k] == hashed[k] by {
        assert((8 * i + k) / 8 == i && (8 * i + k) % 8 == k);
    }
    assert(hash_part(out[3], i) =~= hashed);
}

/// Hash `i` of a column is found in its eight words, those from `8 i` on.
pub proof fn law_hash_found_in_column(hashes: Seq<Blake2sHash>, words: Seq<u32>, i: int)
    requires
        hash_words(hashes, words),
        0 <= i < hashes.len(),
    ensures
        words.len() == 8 * hashes.len(),
        hashes[i].has_words(hash_part(words, i)),
{
}

/// The hashes fit the buffers that are made for them: 32 bytes for each leaf, and for each
/// parent.
pub proof fn law_hashes_fit(
    cols: Seq<Seq<u32>>,
    lifting_log_size: u32,
    num_parents: int,
    is_m31_output: bool,
)
    ensures
        build_leaves_plan(cols, lifting_log_size, is_m31_output).buffers[3]
            == kernel::SourceView::Fresh((32 * pow2(lifting_log_size as nat)) as u64),
        next_layer_plan(num_parents, is_m31_output).buffers[1] == kernel::SourceView::Fresh(
            (32 * num_parents) as u64,
        ),
{
}

} // verus!
