//! What launches do to the buffers of a plan.
//!
//! The state of the device is the words in each buffer.  An effect says what a launch makes
//! of them; performing a plan is the effect of each of its launches in turn.

use crate::fields;
use crate::kernel;
use crate::kernel::Arg;
use vstd::prelude::*;

verus! {

/// The words in the buffers as a plan starts: those that a buffer is made with, or those of
/// the caller's buffer.  A buffer that is made with a size alone may hold anything.
pub open spec fn loaded(
    sources: Seq<kernel::SourceView>,
    inputs: Seq<Seq<u32>>,
    mem: Seq<Seq<u32>>,
) -> bool {
    &&& mem.len() == sources.len()
    &&& forall|slot: int|
        #![trigger mem[slot]]
        0 <= slot < mem.len() ==> match sources[slot] {
            kernel::SourceView::Words(words) => mem[slot] == words,
            kernel::SourceView::CachedWords(words) => mem[slot] == words,
            kernel::SourceView::FlatWords(layers) => mem[slot] == layers.flatten(),
            kernel::SourceView::Input(i) => mem[slot] == inputs[i as int],
            _ => true,
        }
}

/// The buffer that an argument binds.
pub open spec fn slot_of(arg: Arg) -> int {
    match arg {
        Arg::Buffer { slot, .. } => slot as int,
        _ => 0,
    }
}

/// The words that an argument binds.
pub open spec fn bound(mem: Seq<Seq<u32>>, arg: Arg) -> Seq<u32> {
    match arg {
        Arg::Buffer { slot, offset } => if offset == 0 {
            mem[slot as int]
        } else {
            mem[slot as int].skip(offset as int / 4)
        },
        _ => Seq::empty(),
    }
}

/// What launches make of the buffers.
pub open spec fn perform(
    effect: spec_fn(kernel::DispatchView, Seq<Seq<u32>>) -> Seq<Seq<u32>>,
    dispatches: Seq<kernel::DispatchView>,
    mem: Seq<Seq<u32>>,
) -> Seq<Seq<u32>>
    decreases dispatches.len(),
{
    if dispatches.len() == 0 {
        mem
    } else {
        effect(dispatches.last(), perform(effect, dispatches.drop_last(), mem))
    }
}

/// Performing one launch.
pub proof fn lemma_perform_one(
    effect: spec_fn(kernel::DispatchView, Seq<Seq<u32>>) -> Seq<Seq<u32>>,
    dispatches: Seq<kernel::DispatchView>,
    mem: Seq<Seq<u32>>,
)
    requires
        dispatches.len() == 1,
    ensures
        perform(effect, dispatches, mem) == effect(dispatches[0], mem),
{
    reveal_with_fuel(perform, 2);
}

/// Performing two launches.
pub proof fn lemma_perform_two(
    effect: spec_fn(kernel::DispatchView, Seq<Seq<u32>>) -> Seq<Seq<u32>>,
    dispatches: Seq<kernel::DispatchView>,
    mem: Seq<Seq<u32>>,
)
    requires
        dispatches.len() == 2,
    ensures
        perform(effect, dispatches, mem) == effect(dispatches[1], effect(dispatches[0], mem)),
{
    lemma_perform_one(effect, dispatches.drop_last(), mem);
}

/// Performing three launches.
pub proof fn lemma_perform_three(
    effect: spec_fn(kernel::DispatchView, Seq<Seq<u32>>) -> Seq<Seq<u32>>,
    dispatches: Seq<kernel::DispatchView>,
    mem: Seq<Seq<u32>>,
)
    requires
        dispatches.len() == 3,
    ensures
        perform(effect, dispatches, mem) == effect(
            dispatches[2],
            effect(dispatches[1], effect(dispatches[0], mem)),
        ),
{
    lemma_perform_two(effect, dispatches.drop_last(), mem);
}

/// The extension field element at an index, from its four words.
pub open spec fn felt_of(words: Seq<u32>, i: int) -> fields::Coords {
    fields::Coords {
        c0: words[4 * i] as int,
        c1: words[4 * i + 1] as int,
        c2: words[4 * i + 2] as int,
        c3: words[4 * i + 3] as int,
    }
}

/// The words of `n` extension field elements, given by index.
pub open spec fn words_of(n: nat, felt: spec_fn(int) -> fields::Coords) -> Seq<u32> {
    Seq::new(4 * n, |j: int| fields::coords_words(felt(j / 4))[j % 4])
}

/// An element is found again among the words.
pub proof fn lemma_word_of(n: nat, felt: spec_fn(int) -> fields::Coords, i: int)
    requires
        0 <= i < n,
    ensures
        words_of(n, felt).subrange(4 * i, 4 * i + 4) == fields::coords_words(felt(i)),
        words_of(n, felt)[4 * i] == felt(i).c0 as u32,
        words_of(n, felt)[4 * i + 1] == felt(i).c1 as u32,
        words_of(n, felt)[4 * i + 2] == felt(i).c2 as u32,
        words_of(n, felt)[4 * i + 3] == felt(i).c3 as u32,
{
    let all = words_of(n, felt);
    assert forall|k: int| 0 <= k < 4 implies #[trigger] all[4 * i + k] == fields::coords_words(
        felt(i),
    )[k] by {
        assert((4 * i + k) / 4 == i && (4 * i + k) % 4 == k);
    }
    assert(all[4 * i] == all[4 * i + 0]);
    assert(all.subrange(4 * i, 4 * i + 4) =~= fields::coords_words(felt(i)));
}

/// The coordinates in the first four buffers that a launch binds, packed into elements in
/// the fifth.
pub open spec fn packed(d: kernel::DispatchView, mem: Seq<Seq<u32>>) -> Seq<Seq<u32>> {
    mem.update(
        slot_of(d.args[4]),
        Seq::new(
            (4 * kernel::launched(d.grid)) as nat,
            |j: int| bound(mem, d.args[j % 4])[j / 4],
        ),
    )
}

/// The elements in the first buffer that a launch binds, unpacked into coordinates in the
/// next four.
pub open spec fn unpacked(d: kernel::DispatchView, mem: Seq<Seq<u32>>) -> Seq<Seq<u32>> {
    let words = bound(mem, d.args[0]);
    let n = kernel::launched(d.grid) as nat;
    let coord = |c: int| Seq::new(n, |i: int| words[4 * i + c]);
    mem.update(slot_of(d.args[1]), coord(0)).update(slot_of(d.args[2]), coord(1)).update(
        slot_of(d.args[3]),
        coord(2),
    ).update(slot_of(d.args[4]), coord(3))
}

/// The words of an element are found where its coordinates were packed to.
pub proof fn lemma_packed(d: kernel::DispatchView, mem: Seq<Seq<u32>>, i: int)
    requires
        5 <= mem.len(),
        forall|k: int| 0 <= k < 5 ==> #[trigger] d.args[k] == kernel::spec_whole(k as usize),
        0 <= i < kernel::launched(d.grid),
    ensures
        packed(d, mem).len() == mem.len(),
        packed(d, mem)[4].len() == 4 * kernel::launched(d.grid),
        forall|s: int| 0 <= s < mem.len() && s != 4 ==> #[trigger] packed(d, mem)[s] == mem[s],
        felt_of(packed(d, mem)[4], i) == (fields::Coords {
            c0: mem[0][i] as int,
            c1: mem[1][i] as int,
            c2: mem[2][i] as int,
            c3: mem[3][i] as int,
        }),
{
    assert(d.args[4] == kernel::spec_whole(4));
    let words = packed(d, mem)[4];
    assert forall|c: int| 0 <= c < 4 implies #[trigger] words[4 * i + c] == mem[c][i] by {
        assert((4 * i + c) / 4 == i && (4 * i + c) % 4 == c);
        assert(d.args[c] == kernel::spec_whole(c as usize));
    }
    assert(words[4 * i] == words[4 * i + 0]);
}

/// The coordinates of an element are found where they were unpacked to.
pub proof fn lemma_unpacked(
    d: kernel::DispatchView,
    mem: Seq<Seq<u32>>,
    from: int,
    first: int,
    i: int,
)
    requires
        0 <= from < mem.len(),
        0 <= first,
        first + 4 <= mem.len(),
        from <= usize::MAX,
        first + 4 <= usize::MAX,
        d.args[0] == kernel::spec_whole(from as usize),
        d.args[1] == kernel::spec_whole(first as usize),
        d.args[2] == kernel::spec_whole((first + 1) as usize),
        d.args[3] == kernel::spec_whole((first + 2) as usize),
        d.args[4] == kernel::spec_whole((first + 3) as usize),
        0 <= i < kernel::launched(d.grid),
    ensures
        unpacked(d, mem)[first][i] == mem[from][4 * i],
        unpacked(d, mem)[first + 1][i] == mem[from][4 * i + 1],
        unpacked(d, mem)[first + 2][i] == mem[from][4 * i + 2],
        unpacked(d, mem)[first + 3][i] == mem[from][4 * i + 3],
{
    assert(mem[from][4 * i] == mem[from][4 * i + 0]);
}

/// Elements as four columns of coordinates, in the buffers that four arguments from `first` on
/// bind.
pub open spec fn with_coords(
    mem: Seq<Seq<u32>>,
    args: Seq<Arg>,
    first: int,
    n: nat,
    felt: spec_fn(int) -> fields::Coords,
) -> Seq<Seq<u32>> {
    mem.update(
        slot_of(args[first]),
        Seq::new(n, |i: int| felt(i).c0 as u32),
    ).update(
        slot_of(args[first + 1]),
        Seq::new(n, |i: int| felt(i).c1 as u32),
    ).update(
        slot_of(args[first + 2]),
        Seq::new(n, |i: int| felt(i).c2 as u32),
    ).update(
        slot_of(args[first + 3]),
        Seq::new(n, |i: int| felt(i).c3 as u32),
    )
}

/// The words at an index of four consecutive buffers are those of an element.
pub open spec fn coords_at(
    mem: Seq<Seq<u32>>,
    first: int,
    i: int,
    felt: fields::Coords,
) -> bool {
    &&& mem[first][i] == felt.c0 as u32
    &&& mem[first + 1][i] == felt.c1 as u32
    &&& mem[first + 2][i] == felt.c2 as u32
    &&& mem[first + 3][i] == felt.c3 as u32
}

} // verus!
