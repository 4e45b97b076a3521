//! Work for a device, as plain data.
//!
//! A [`Plan`] lists the buffers that a computation needs and the kernel launches that
//! fill them.  Whoever runs a plan creates the buffers in order and performs the launches
//! in order; what the buffers hold and what each launch is given is decided here.

use vstd::arithmetic::div_mod::*;
use vstd::prelude::*;

verus! {

/// Compute kernels of the device library.
#[derive(Debug, Clone, Copy, PartialEq, Eq, Structural)]
pub enum Kernel {
    AccumulateM31,
    Blake2sChannelMix,
    Blake2sChannelDraw,
    Blake2sChannelMixFelts,
    TraceReshapeColumn,
    ConstraintEvalVm,
    PackCoordsToQm31,
    UnpackQm31ToCoords,
    FriFoldLineCoords,
    FriFoldCircleIntoLineCoords,
    FriDecomposeSum,
    FriDecompose,
    Grind,
    MerkleLeafLifted,
    Merkle,
    FftRadix2,
    FftRadix8,
    FftVecwiseFused,
    IfftRadix2,
    IfftNormalize,
    EvalAtPoint,
    QuotientPartialNumerator,
    QuotientCombine,
}

/// Where a buffer of a plan comes from.
#[derive(Debug)]
pub enum Source {
    /// A buffer of the caller, by its number among them.
    Input(usize),
    /// A new buffer of this many bytes.
    Fresh(u64),
    /// A buffer of at least this many bytes from the shared pool.
    Pooled(u64),
    /// A new buffer with these words.
    Words(Vec<u32>),
    /// A cached buffer with these words.
    CachedWords(Vec<u32>),
    /// A cached buffer with the words of these layers, one layer after the other.
    FlatWords(Vec<Vec<u32>>),
    /// A new buffer with these bytes.
    Bytes(Vec<u8>),
}

/// What a [`Source`] says, over mathematical sequences.
#[verifier::ext_equal]
pub enum SourceView {
    Input(usize),
    Fresh(u64),
    Pooled(u64),
    Words(Seq<u32>),
    CachedWords(Seq<u32>),
    FlatWords(Seq<Seq<u32>>),
    Bytes(Seq<u8>),
}

/// The contents of each layer.
pub open spec fn layer_views(layers: Seq<Vec<u32>>) -> Seq<Seq<u32>> {
    layers.map_values(|v: Vec<u32>| v@)
}

impl View for Source {
    type V = SourceView;

    open spec fn view(&self) -> SourceView {
        match *self {
            Source::Input(i) => SourceView::Input(i),
            Source::Fresh(n) => SourceView::Fresh(n),
            Source::Pooled(n) => SourceView::Pooled(n),
            Source::Words(w) => SourceView::Words(w@),
            Source::CachedWords(w) => SourceView::CachedWords(w@),
            Source::FlatWords(layers) => SourceView::FlatWords(layer_views(layers@)),
            Source::Bytes(b) => SourceView::Bytes(b@),
        }
    }
}

/// An argument of a launch.
#[derive(Debug, Clone, Copy, PartialEq, Eq, Structural)]
pub enum Arg {
    /// A buffer of the plan, from a byte offset on.
    Buffer { slot: usize, offset: u64 },
    U8(u8),
    U32(u32),
    U64(u64),
    Flag(bool),
}

/// Number of threads of a launch.
#[derive(Debug, Clone, Copy, PartialEq, Eq, Structural)]
pub enum Grid {
    /// This many groups of this many threads.
    Groups { count: u64, size: u64 },
    /// This many threads, in groups of at most this many.
    Threads { total: u64, group: u64 },
    /// A thread for each of this many items, in groups that the runner chooses.
    Items { total: u64 },
}

/// One launch of a kernel.
#[derive(Debug)]
pub struct Dispatch {
    pub kernel: Kernel,
    pub args: Vec<Arg>,
    pub grid: Grid,
}

/// What a [`Dispatch`] says, over mathematical sequences.
#[verifier::ext_equal]
pub struct DispatchView {
    pub kernel: Kernel,
    pub args: Seq<Arg>,
    pub grid: Grid,
}

impl View for Dispatch {
    type V = DispatchView;

    open spec fn view(&self) -> DispatchView {
        DispatchView { kernel: self.kernel, args: self.args@, grid: self.grid }
    }
}

/// Buffers and launches, in order.
#[derive(Debug)]
pub struct Plan {
    pub buffers: Vec<Source>,
    pub dispatches: Vec<Dispatch>,
}

/// What a [`Plan`] says, over mathematical sequences.
#[verifier::ext_equal]
pub struct PlanView {
    pub buffers: Seq<SourceView>,
    pub dispatches: Seq<DispatchView>,
}

impl View for Plan {
    type V = PlanView;

    open spec fn view(&self) -> PlanView {
        PlanView {
            buffers: self.buffers@.map_values(|s: Source| s@),
            dispatches: self.dispatches@.map_values(|d: Dispatch| d@),
        }
    }
}

impl PlanView {
    /// The plan with one more buffer.
    pub open spec fn with_buffer(self, source: SourceView) -> PlanView {
        PlanView { buffers: self.buffers.push(source), ..self }
    }

    /// The plan with one more launch.
    pub open spec fn with_dispatch(self, dispatch: DispatchView) -> PlanView {
        PlanView { dispatches: self.dispatches.push(dispatch), ..self }
    }

    /// Every launch names buffers that the plan has.
    pub open spec fn wf(self) -> bool {
        forall|i: int|
            0 <= i < self.dispatches.len() ==> args_in_range(
                #[trigger] self.dispatches[i].args,
                self.buffers.len(),
            )
    }
}

/// All buffers among the arguments are among the first `n`.
pub open spec fn args_in_range(args: Seq<Arg>, n: nat) -> bool {
    forall|j: int|
        0 <= j < args.len() ==> (#[trigger] args[j] matches Arg::Buffer { slot, .. } ==> slot < n)
}

/// The plan that does nothing.
pub open spec fn empty_plan() -> PlanView {
    PlanView { buffers: Seq::empty(), dispatches: Seq::empty() }
}

impl Plan {
    pub fn new() -> (r: Plan)
        ensures
            r@ == empty_plan(),
            r@.wf(),
    {
        let r = Plan { buffers: Vec::new(), dispatches: Vec::new() };
        assert(r@ =~= empty_plan());
        r
    }

    /// Adds a buffer and returns its slot.
    pub fn add_buffer(&mut self, source: Source) -> (slot: usize)
        ensures
            slot == old(self)@.buffers.len(),
            final(self)@ == old(self)@.with_buffer(source@),
            old(self)@.wf() ==> final(self)@.wf(),
    {
        let slot: usize = self.buffers.len();
        self.buffers.push(source);
        assert(self@ =~= old(self)@.with_buffer(source@));
        proof {
            let n = old(self)@.buffers.len();
            assert forall|i: int| 0 <= i < self@.dispatches.len() && args_in_range(
                #[trigger] self@.dispatches[i].args,
                n,
            ) implies args_in_range(self@.dispatches[i].args, n + 1) by {}
        }
        slot
    }

    /// Adds a launch.
    pub fn dispatch(&mut self, kernel: Kernel, args: Vec<Arg>, grid: Grid)
        requires
            args_in_range(args@, old(self)@.buffers.len()),
        ensures
            final(self)@ == old(self)@.with_dispatch(DispatchView { kernel, args: args@, grid }),
            old(self)@.wf() ==> final(self)@.wf(),
    {
        let ghost d = DispatchView { kernel, args: args@, grid };
        self.dispatches.push(Dispatch { kernel, args, grid });
        assert(self@ =~= old(self)@.with_dispatch(d));
        proof {
            let n = self@.buffers.len();
            assert forall|i: int|
                old(self)@.wf() && 0 <= i < self@.dispatches.len() implies args_in_range(
                #[trigger] self@.dispatches[i].args,
                n,
            ) by {
                if i < old(self)@.dispatches.len() {
                    assert(self@.dispatches[i] == old(self)@.dispatches[i]);
                }
            }
        }
    }
}

/// The whole of a buffer, as an argument.
pub open spec fn spec_whole(slot: usize) -> Arg {
    Arg::Buffer { slot, offset: 0 }
}

/// The whole of a buffer, as an argument.
#[verifier::when_used_as_spec(spec_whole)]
pub fn whole(slot: usize) -> (r: Arg)
    ensures
        r == spec_whole(slot),
{
    Arg::Buffer { slot, offset: 0 }
}

/// Largest number of threads in a group.
pub const MAX_GROUP_SIZE: u64 = 256;

/// Groups for `threads` threads: as large as they may be, and at least one.
pub open spec fn spec_groups_for(threads: u64) -> Grid {
    let size = if threads == 0 {
        1u64
    } else if threads < MAX_GROUP_SIZE {
        threads
    } else {
        MAX_GROUP_SIZE
    };
    Grid::Groups {
        count: if threads == 0 {
            1u64
        } else {
            ((threads + size - 1) / (size as int)) as u64
        },
        size,
    }
}

/// Groups for `threads` threads: as large as they may be, and at least one.
pub fn groups_for(threads: u64) -> (r: Grid)
    requires
        threads + MAX_GROUP_SIZE <= u64::MAX,
    ensures
        r == spec_groups_for(threads),
{
    let size: u64 = if threads == 0 {
        1
    } else if threads < MAX_GROUP_SIZE {
        threads
    } else {
        MAX_GROUP_SIZE
    };
    let count: u64 = if threads == 0 {
        1
    } else {
        (threads + (size - 1)) / size
    };
    Grid::Groups { count, size }
}

/// One thread for each of `total` items, in groups as large as they may be.
pub open spec fn spec_threads_for(total: u64) -> Grid {
    Grid::Threads {
        total,
        group: if total < MAX_GROUP_SIZE {
            total
        } else {
            MAX_GROUP_SIZE
        },
    }
}

/// One thread for each of `total` items, in groups as large as they may be.
pub fn threads_for(total: u64) -> (r: Grid)
    ensures
        r == spec_threads_for(total),
{
    Grid::Threads {
        total,
        group: if total < MAX_GROUP_SIZE {
            total
        } else {
            MAX_GROUP_SIZE
        },
    }
}

/// The first `n` buffers of a plan, as arguments.
pub open spec fn first_buffers(n: nat) -> Seq<Arg> {
    Seq::new(n, |i: int| spec_whole(i as usize))
}

/// The first `n` buffers of a plan, as arguments.
pub fn buffer_args(n: usize) -> (r: Vec<Arg>)
    ensures
        r@ == first_buffers(n as nat),
{
    let mut out: Vec<Arg> = Vec::new();
    for i in 0..n
        invariant
            out@ == first_buffers(i as nat),
    {
        out.push(whole(i));
        assert(out@ =~= first_buffers((i + 1) as nat));
    }
    out
}

/// Number of threads that a grid launches.
pub open spec fn launched(grid: Grid) -> int {
    match grid {
        Grid::Groups { count, size } => count * size,
        Grid::Threads { total, .. } => total as int,
        Grid::Items { total } => total as int,
    }
}

/// [`groups_for`] launches a thread for every item, and fewer than one group too many.
pub proof fn law_groups_cover_threads(threads: u64)
    requires
        threads + MAX_GROUP_SIZE <= u64::MAX,
    ensures
        launched(spec_groups_for(threads)) >= threads,
        threads > 0 ==> launched(spec_groups_for(threads)) < threads + spec_groups_for(
            threads,
        )->size,
        1 <= spec_groups_for(threads)->size <= MAX_GROUP_SIZE,
        spec_groups_for(threads)->count >= 1,
{
    let size = spec_groups_for(threads)->size;
    if threads > 0 {
        let t = threads + size - 1;
        let c = t / (size as int);
        lemma_fundamental_div_mod(t, size as int);
        lemma_div_is_ordered_by_denominator(t, 1, size as int);
        assert(t / 1 == t);
        lemma_div_pos_is_pos(t, size as int);
        assert(size * c == c * size) by (nonlinear_arith);
        assert(c >= 1) by (nonlinear_arith)
            requires
                size * c + t % (size as int) == t,
                t >= size,
                0 <= t % (size as int) < size,
                size > 0,
        ;
    }
}

/// [`threads_for`] launches exactly one thread for every item, in groups of one to
/// [`MAX_GROUP_SIZE`] threads that are no larger than the launch.
pub proof fn law_threads_are_the_items(total: u64)
    ensures
        launched(spec_threads_for(total)) == total,
        spec_threads_for(total)->group <= MAX_GROUP_SIZE,
        spec_threads_for(total)->group <= total,
        total > 0 ==> spec_threads_for(total)->group >= 1,
        total >= MAX_GROUP_SIZE ==> spec_threads_for(total)->group == MAX_GROUP_SIZE,
{
}

/// [`buffer_args`] binds every buffer from its start, each at its own number.
pub proof fn law_arguments_are_the_buffers(n: nat, i: int)
    requires
        0 <= i < n <= usize::MAX,
    ensures
        first_buffers(n).len() == n,
        first_buffers(n)[i] == (Arg::Buffer { slot: i as usize, offset: 0 }),
{
}

} // verus!
