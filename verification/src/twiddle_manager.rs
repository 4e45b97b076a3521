//! Flattened twiddle buffers.
//!
//! The twiddle factors of several transform layers are packed into one buffer, and a
//! section records where each layer starts.  Buffers are cached under a key that is
//! computed from the lengths of the layers and a few of their values; the layers are kept
//! with the buffer, so that other layers with the same key are told apart.

use crate::byte_order;
use crate::byte_order::{push_le32, push_le64};
use crate::kernel;
use crate::kernel::Source;
use crate::packing;
use std::collections::hash_map::DefaultHasher;
use std::collections::HashMap;
use std::hash::Hasher;
use vstd::prelude::*;
use vstd::slice::slice_to_vec;
use vstd::std_specs::hash::*;

verus! {

broadcast use vstd::std_specs::hash::group_hash_axioms;

/// A layer's place within a flat buffer.
#[derive(Debug, Clone, Copy, PartialEq, Eq, Structural)]
pub struct TwiddleSection {
    /// Byte offset into the flat buffer.
    pub offset: u64,
    /// Number of twiddle factors.
    pub len: u32,
}

/// A buffer that holds the twiddle factors of several layers.
#[derive(Debug)]
pub struct FlatTwiddleBuffer<B> {
    /// The buffer with all twiddle factors.
    pub buffer: B,
    /// The section of each layer.
    pub sections: Vec<TwiddleSection>,
    /// Total size in bytes.
    pub total_size: u64,
}

/// A flat buffer with the layers that it was made from.
#[derive(Debug)]
pub struct CachedTwiddles<B> {
    pub layers: Vec<Vec<u32>>,
    pub flat: FlatTwiddleBuffer<B>,
}

impl<B> CachedTwiddles<B> {
    /// The layers that the buffer was made from.
    pub open spec fn spec_layers(self) -> Seq<Seq<u32>> {
        kernel::layer_views(self.layers@)
    }

    /// Sections and size are those of the layers.
    pub open spec fn wf(self) -> bool {
        self.flat.is_layout_of(self.spec_layers())
    }
}

impl<B> FlatTwiddleBuffer<B> {
    /// Sections and size are those of the layers.
    pub open spec fn is_layout_of(self, layers: Seq<Seq<u32>>) -> bool {
        &&& self.sections@ == flat_sections(layers)
        &&& self.total_size == 4 * packing::words_before(layers, layers.len() as int)
    }
}

/// A cache of flat buffers.
pub struct FlatTwiddleManager<B> {
    /// Flat buffers by key.
    pub cache: HashMap<u64, CachedTwiddles<B>>,
}

/// The contents of each layer.
pub open spec fn layer_slices(layers: Seq<&[u32]>) -> Seq<Seq<u32>> {
    layers.map_values(|l: &[u32]| l@)
}

/// What is hashed of one layer: its length, and its first, middle and last value.
pub open spec fn layer_samples(layer: Seq<u32>) -> Seq<Seq<u8>> {
    let n = layer.len() as int;
    let len = seq![byte_order::le64(n as u64)];
    if n == 0 {
        len
    } else if n == 1 {
        len + seq![byte_order::le32(layer[0])]
    } else {
        len + seq![
            byte_order::le32(layer[0]),
            byte_order::le32(layer[n / 2]),
            byte_order::le32(layer[n - 1]),
        ]
    }
}

/// What is hashed of the first `k` layers, after their number.
pub open spec fn samples_upto(layers: Seq<Seq<u32>>, k: nat) -> Seq<Seq<u8>>
    decreases k,
{
    if k == 0 {
        seq![byte_order::le64(layers.len() as u64)]
    } else {
        samples_upto(layers, (k - 1) as nat) + layer_samples(layers[k - 1])
    }
}

/// The key under which layers are cached.
pub open spec fn cache_key(layers: Seq<Seq<u32>>) -> u64 {
    DefaultHasher::spec_finish(samples_upto(layers, layers.len()))
}

/// The section of each layer.
pub open spec fn flat_sections(layers: Seq<Seq<u32>>) -> Seq<TwiddleSection> {
    Seq::new(
        layers.len(),
        |i: int|
            TwiddleSection {
                offset: (4 * packing::words_before(layers, i)) as u64,
                len: layers[i].len() as u32,
            },
    )
}

/// Sections and values of flattened layers.
pub struct FlatLayout {
    pub sections: Vec<TwiddleSection>,
    pub words: Vec<u32>,
    pub total_size: u64,
}

/// The section of each layer.
pub fn layer_sections(twiddle_layers: &[&[u32]]) -> (r: Vec<TwiddleSection>)
    requires
        4 * packing::words_before(layer_slices(twiddle_layers@), twiddle_layers@.len() as int)
            <= u64::MAX,
    ensures
        r@ == flat_sections(layer_slices(twiddle_layers@)),
{
    let ghost layers = layer_slices(twiddle_layers@);
    let mut sections: Vec<TwiddleSection> = Vec::new();
    let mut current_offset: u64 = 0;
    for i in 0..twiddle_layers.len()
        invariant
            layers == layer_slices(twiddle_layers@),
            4 * packing::words_before(layers, twiddle_layers@.len() as int) <= u64::MAX,
            current_offset == 4 * packing::words_before(layers, i as int),
            sections@ == flat_sections(layers).take(i as int),
    {
        let layer: &[u32] = twiddle_layers[i];
        proof {
            packing::lemma_words_before_monotone(layers, i + 1, twiddle_layers@.len() as int);
            assert(layers[i as int] == layer@);
        }
        sections.push(TwiddleSection { offset: current_offset, len: layer.len() as u32 });
        current_offset = current_offset + 4 * (layer.len() as u64);
        assert(sections@ =~= flat_sections(layers).take(i + 1));
    }
    assert(sections@ =~= flat_sections(layers));
    sections
}

/// Lays out layers one after the other.
pub fn flat_layout(twiddle_layers: &[&[u32]]) -> (r: FlatLayout)
    requires
        4 * packing::words_before(layer_slices(twiddle_layers@), twiddle_layers@.len() as int)
            <= u64::MAX,
    ensures
        r.sections@ == flat_sections(layer_slices(twiddle_layers@)),
        r.words@ == layer_slices(twiddle_layers@).flatten(),
        r.total_size == 4 * packing::words_before(
            layer_slices(twiddle_layers@),
            twiddle_layers@.len() as int,
        ),
{
    let ghost layers = layer_slices(twiddle_layers@);
    let sections = layer_sections(twiddle_layers);
    let mut words: Vec<u32> = Vec::new();
    assert(layers.take(0) =~= Seq::empty());
    for i in 0..twiddle_layers.len()
        invariant
            layers == layer_slices(twiddle_layers@),
            words@ == layers.take(i as int).flatten(),
    {
        let layer: &[u32] = twiddle_layers[i];
        proof {
            packing::lemma_flatten_step(layers, i as int);
            assert(layers[i as int] == layer@);
        }
        words.extend_from_slice(layer);
        assert(words@ =~= layers.take(i as int).flatten() + layer@);
    }
    proof {
        assert(layers.take(layers.len() as int) =~= layers);
        packing::lemma_flatten_len(layers, layers.len() as int);
    }
    let total_size: u64 = 4 * (words.len() as u64);
    FlatLayout { sections, words, total_size }
}

/// The key under which layers are cached.
pub fn layers_key(twiddle_layers: &[&[u32]]) -> (r: u64)
    ensures
        r == cache_key(layer_slices(twiddle_layers@)),
{
    let ghost layers = layer_slices(twiddle_layers@);
    let mut hasher = DefaultHasher::new();
    hash_len(&mut hasher, twiddle_layers.len());
    assert(hasher@ =~= samples_upto(layers, 0));
    for i in 0..twiddle_layers.len()
        invariant
            layers == layer_slices(twiddle_layers@),
            hasher@ == samples_upto(layers, i as nat),
    {
        let layer: &[u32] = twiddle_layers[i];
        let n: usize = layer.len();
        hash_len(&mut hasher, n);
        if n > 0 {
            hash_word(&mut hasher, layer[0]);
            if n > 1 {
                hash_word(&mut hasher, layer[n / 2]);
                hash_word(&mut hasher, layer[n - 1]);
            }
        }
        proof {
            assert(layers[i as int] == layer@);
            assert(hasher@ =~= samples_upto(layers, i as nat) + layer_samples(layer@));
        }
    }
    hasher.finish()
}

/// Feeds a number of items to a hasher.
pub fn hash_len(hasher: &mut DefaultHasher, n: usize)
    ensures
        final(hasher)@ == old(hasher)@.push(byte_order::le64(n as u64)),
{
    let mut bytes: Vec<u8> = Vec::new();
    push_le64(&mut bytes, n as u64);
    assert(bytes@ =~= byte_order::le64(n as u64));
    hasher.write(bytes.as_slice());
}

/// Feeds a word to a hasher.
fn hash_word(hasher: &mut DefaultHasher, x: u32)
    ensures
        final(hasher)@ == old(hasher)@.push(byte_order::le32(x)),
{
    let mut bytes: Vec<u8> = Vec::new();
    push_le32(&mut bytes, x);
    assert(bytes@ =~= byte_order::le32(x));
    hasher.write(bytes.as_slice());
}

/// Copies of layers.
pub fn copy_layers(layers: &[&[u32]]) -> (r: Vec<Vec<u32>>)
    ensures
        kernel::layer_views(r@) == layer_slices(layers@),
{
    let mut out: Vec<Vec<u32>> = Vec::new();
    for i in 0..layers.len()
        invariant
            kernel::layer_views(out@) == layer_slices(layers@).take(i as int),
    {
        let ghost before = kernel::layer_views(out@);
        let copy = slice_to_vec(layers[i]);
        out.push(copy);
        assert(kernel::layer_views(out@) =~= before.push(copy@));
        assert(kernel::layer_views(out@) =~= layer_slices(layers@).take(i + 1));
    }
    assert(kernel::layer_views(out@) =~= layer_slices(layers@));
    out
}

/// Whether two layers have the same twiddle factors.
fn same_layer(a: &[u32], b: &[u32]) -> (r: bool)
    ensures
        r == (a@ == b@),
{
    if a.len() != b.len() {
        return false;
    }
    for i in 0..a.len()
        invariant
            a.len() == b.len(),
            forall|k: int| 0 <= k < i ==> a@[k] == b@[k],
    {
        if a[i] != b[i] {
            assert(a@[i as int] != b@[i as int]);
            return false;
        }
    }
    assert(a@ =~= b@);
    true
}

/// Whether kept layers are the given ones.
fn same_layers(kept: &Vec<Vec<u32>>, layers: &[&[u32]]) -> (r: bool)
    ensures
        r == (kernel::layer_views(kept@) == layer_slices(layers@)),
{
    let ghost a = kernel::layer_views(kept@);
    let ghost b = layer_slices(layers@);
    if kept.len() != layers.len() {
        assert(a.len() != b.len());
        return false;
    }
    for i in 0..kept.len()
        invariant
            a == kernel::layer_views(kept@),
            b == layer_slices(layers@),
            kept.len() == layers.len(),
            forall|k: int| 0 <= k < i ==> a[k] == b[k],
    {
        if !same_layer(kept[i].as_slice(), layers[i]) {
            assert(a[i as int] != b[i as int]);
            return false;
        }
    }
    assert(a =~= b);
    true
}

impl<B: Clone> FlatTwiddleManager<B> {
    /// Each cached buffer has the sections and the size of its layers.
    pub open spec fn wf(self) -> bool {
        forall|key: u64| #[trigger] self.cache@.contains_key(key) ==> self.cache@[key].wf()
    }

    /// There is a cached buffer of these layers.
    pub open spec fn holds(self, layers: Seq<Seq<u32>>) -> bool {
        let key = cache_key(layers);
        self.cache@.contains_key(key) && self.cache@[key].spec_layers() == layers
    }

    /// A property of layers and buffers that each cached buffer has with its layers.
    pub open spec fn all_made(self, made: spec_fn(Seq<Seq<u32>>, B) -> bool) -> bool {
        forall|key: u64| #[trigger]
            self.cache@.contains_key(key) ==> made(
                self.cache@[key].spec_layers(),
                self.cache@[key].flat.buffer,
            )
    }

    /// A manager with nothing cached.
    pub fn new() -> (r: FlatTwiddleManager<B>)
        ensures
            r.cache@ == Map::<u64, CachedTwiddles<B>>::empty(),
            r.wf(),
    {
        FlatTwiddleManager { cache: HashMap::new() }
    }

    /// What a new buffer for layers is made from: their values in a row, or one word of
    /// space where there are none.
    pub open spec fn flat_source(layers: Seq<Seq<u32>>, source: Source) -> bool {
        if layers.flatten().len() == 0 {
            source == Source::Fresh(4)
        } else {
            source@ == crate::kernel::SourceView::Words(layers.flatten())
        }
    }

    /// A property of layers and buffers that a new buffer of these layers has, and that a
    /// clone keeps.
    pub open spec fn makes<F: FnOnce(Source) -> B>(
        new_buffer: F,
        layers: Seq<Seq<u32>>,
        made: spec_fn(Seq<Seq<u32>>, B) -> bool,
    ) -> bool {
        &&& forall|source: Source, buffer: B|
            Self::flat_source(layers, source) && #[trigger] call_ensures(
                new_buffer,
                (source,),
                buffer,
            ) ==> made(layers, buffer)
        &&& forall|a: B, b: B| made(layers, a) && #[trigger] cloned(a, b) ==> made(layers, b)
    }

    /// The flat buffer for layers: the cached one where there is one of these layers, else a
    /// new one, which is cached.
    ///
    /// Whatever makes a buffer the buffer of layers, the result is one of the given layers,
    /// so long as the cached buffers are, new ones are and clones stay so.
    pub fn get_or_create_flat_buffer<F: FnOnce(Source) -> B>(
        &mut self,
        new_buffer: F,
        twiddle_layers: &[&[u32]],
    ) -> (r: FlatTwiddleBuffer<B>)
        requires
            old(self).wf(),
            4 * packing::words_before(layer_slices(twiddle_layers@), twiddle_layers@.len() as int)
                <= u64::MAX,
            !old(self).holds(layer_slices(twiddle_layers@)) ==> forall|source: Source|
                Self::flat_source(layer_slices(twiddle_layers@), source)
                    ==> #[trigger] call_requires(new_buffer, (source,)),
        ensures
            final(self).wf(),
            final(self).holds(layer_slices(twiddle_layers@)),
            r.is_layout_of(layer_slices(twiddle_layers@)),
            ({
                let layers = layer_slices(twiddle_layers@);
                let key = cache_key(layers);
                let cached = final(self).cache@[key];
                if old(self).holds(layers) {
                    &&& final(self).cache@ == old(self).cache@
                    &&& cloned(cached.flat.buffer, r.buffer)
                } else {
                    &&& exists|source: Source|
                        Self::flat_source(layers, source) && #[trigger] call_ensures(
                            new_buffer,
                            (source,),
                            r.buffer,
                        )
                    &&& final(self).cache@ == old(self).cache@.insert(key, cached)
                    &&& cloned(r.buffer, cached.flat.buffer)
                }
            }),
            forall|made: spec_fn(Seq<Seq<u32>>, B) -> bool|
                #![trigger old(self).all_made(made)]
                old(self).all_made(made) && Self::makes(
                    new_buffer,
                    layer_slices(twiddle_layers@),
                    made,
                ) ==> final(self).all_made(made) && made(
                    layer_slices(twiddle_layers@),
                    r.buffer,
                ),
    {
        let ghost layers = layer_slices(twiddle_layers@);
        let key: u64 = layers_key(twiddle_layers);
        if let Some(cached) = self.cache.get(&key) {
            if same_layers(&cached.layers, twiddle_layers) {
                let sections = cached.flat.sections.clone();
                assert(sections@ =~= cached.flat.sections@);
                return FlatTwiddleBuffer {
                    buffer: cached.flat.buffer.clone(),
                    sections,
                    total_size: cached.flat.total_size,
                };
            }
        }
        let flat_buffer = Self::create_flat_buffer(new_buffer, twiddle_layers);
        let sections = flat_buffer.sections.clone();
        assert(sections@ =~= flat_buffer.sections@);
        let flat = FlatTwiddleBuffer {
            buffer: flat_buffer.buffer.clone(),
            sections,
            total_size: flat_buffer.total_size,
        };
        let ghost buffer = flat.buffer;
        self.cache.insert(key, CachedTwiddles { layers: copy_layers(twiddle_layers), flat });
        proof {
            assert(self.cache@[key].spec_layers() == layers);
            assert(self.cache@[key].flat.buffer == buffer);
            assert(cloned(flat_buffer.buffer, buffer));
            assert forall|made: spec_fn(Seq<Seq<u32>>, B) -> bool|
                #![trigger old(self).all_made(made)]
                old(self).all_made(made) && Self::makes(new_buffer, layers, made) implies self.all_made(
                made,
            ) && made(layers, flat_buffer.buffer) by {
                assert forall|k: u64| #[trigger] self.cache@.contains_key(k) implies made(
                    self.cache@[k].spec_layers(),
                    self.cache@[k].flat.buffer,
                ) by {
                    if k != key {
                        assert(old(self).cache@.contains_key(k));
                    }
                }
            }
        }
        flat_buffer
    }

    /// A new flat buffer for layers.
    fn create_flat_buffer<F: FnOnce(Source) -> B>(new_buffer: F, twiddle_layers: &[&[u32]]) -> (r:
        FlatTwiddleBuffer<B>)
        requires
            4 * packing::words_before(layer_slices(twiddle_layers@), twiddle_layers@.len() as int)
                <= u64::MAX,
            forall|source: Source|
                Self::flat_source(layer_slices(twiddle_layers@), source)
                    ==> #[trigger] call_requires(new_buffer, (source,)),
        ensures
            exists|source: Source|
                Self::flat_source(layer_slices(twiddle_layers@), source)
                    && #[trigger] call_ensures(new_buffer, (source,), r.buffer),
            r.is_layout_of(layer_slices(twiddle_layers@)),
    {
        let layout = flat_layout(twiddle_layers);
        let source = if layout.words.len() > 0 {
            Source::Words(layout.words)
        } else {
            Source::Fresh(4)
        };
        assert(Self::flat_source(layer_slices(twiddle_layers@), source));
        let ghost given = source;
        let buffer = new_buffer(source);
        let r = FlatTwiddleBuffer {
            buffer,
            sections: layout.sections,
            total_size: layout.total_size,
        };
        proof {
            assert(call_ensures(new_buffer, (given,), r.buffer));
            assert(Self::flat_source(layer_slices(twiddle_layers@), given));
        }
        r
    }

    /// Forgets all cached buffers.
    pub fn clear_cache(&mut self)
        ensures
            final(self).cache@ == Map::<u64, CachedTwiddles<B>>::empty(),
            final(self).wf(),
    {
        self.cache.clear();
    }
}

impl<B: Clone> Default for FlatTwiddleManager<B> {
    fn default() -> (r: FlatTwiddleManager<B>)
        ensures
            r.cache@ == Map::<u64, CachedTwiddles<B>>::empty(),
            r.wf(),
    {
        FlatTwiddleManager::new()
    }
}

/// Each section holds its layer: from its offset on, the flat buffer has the layer's
/// values.
pub proof fn law_sections_hold_layers(layers: Seq<Seq<u32>>, i: int)
    requires
        0 <= i < layers.len(),
        4 * packing::words_before(layers, layers.len() as int) <= u64::MAX,
    ensures
        ({
            let start = flat_sections(layers)[i].offset as int / 4;
            &&& flat_sections(layers).len() == layers.len()
            &&& flat_sections(layers)[i].offset as int % 4 == 0
            &&& flat_sections(layers)[i].len == layers[i].len() as u32
            &&& start + layers[i].len() <= layers.flatten().len()
            &&& layers.flatten().subrange(start, start + layers[i].len()) == layers[i]
        }),
{
    packing::lemma_words_before_monotone(layers, i, layers.len() as int);
    packing::law_packed_column_found(layers, i);
    assert(flat_sections(layers)[i].offset == 4 * packing::words_before(layers, i));
}

/// What is hashed of the first layers is the start of what is hashed of more.
proof fn lemma_samples_prefix(layers: Seq<Seq<u32>>, k: nat, n: nat)
    requires
        k <= n,
    ensures
        samples_upto(layers, k).len() <= samples_upto(layers, n).len(),
        samples_upto(layers, n).take(samples_upto(layers, k).len() as int) == samples_upto(
            layers,
            k,
        ),
    decreases n,
{
    let all = samples_upto(layers, n);
    if k < n {
        lemma_samples_prefix(layers, k, (n - 1) as nat);
        let shorter = samples_upto(layers, (n - 1) as nat);
        let len = samples_upto(layers, k).len() as int;
        assert(all.take(len) =~= shorter.take(len));
    } else {
        assert(all.take(all.len() as int) =~= all);
    }
}

/// Two layers have the same length, and the same first, middle and last factor.
pub open spec fn sampled_alike(a: Seq<u32>, b: Seq<u32>) -> bool {
    &&& a.len() == b.len()
    &&& a.len() > 0 ==> a[0] == b[0] && a[a.len() as int / 2] == b[b.len() as int / 2]
        && a.last() == b.last()
}

/// The samples of layers tell them apart as far as they go: where two lists of layers give
/// the same samples, there are as many layers, and each is sampled like the other.
proof fn lemma_first_layers_alike(a: Seq<Seq<u32>>, b: Seq<Seq<u32>>, k: nat)
    requires
        a.len() == b.len(),
        k <= a.len(),
        forall|i: int| 0 <= i < a.len() ==> (#[trigger] a[i]).len() <= u64::MAX,
        forall|i: int| 0 <= i < b.len() ==> (#[trigger] b[i]).len() <= u64::MAX,
        samples_upto(a, a.len()) == samples_upto(b, b.len()),
    ensures
        samples_upto(a, k) == samples_upto(b, k),
        forall|i: int| 0 <= i < k ==> sampled_alike(#[trigger] a[i], b[i]),
    decreases k,
{
    if k > 0 {
        let last = k - 1;
        let m = (k - 1) as nat;
        lemma_first_layers_alike(a, b, m);
        lemma_samples_prefix(a, k, a.len());
        lemma_samples_prefix(b, k, b.len());
        let all = samples_upto(a, a.len());
        let n = samples_upto(a, m).len() as int;
        let x = layer_samples(a[last]);
        let y = layer_samples(b[last]);
        assert forall|i: int| 0 <= i < x.len() implies all[n + i] == x[i] by {
            assert(all.take(samples_upto(a, k).len() as int)[n + i] == x[i]);
        }
        assert forall|i: int| 0 <= i < y.len() implies all[n + i] == y[i] by {
            assert(all.take(samples_upto(b, k).len() as int)[n + i] == y[i]);
        }
        byte_order::law_little_endian_value(0, a[last].len() as u64);
        byte_order::law_little_endian_value(0, b[last].len() as u64);
        assert(x[0] == all[n + 0] && y[0] == all[n + 0]);
        assert(x[0] == byte_order::le64(a[last].len() as u64));
        assert(y[0] == byte_order::le64(b[last].len() as u64));
        assert(a[last].len() == b[last].len());
        let len = a[last].len() as int;
        if len > 0 {
            assert(x[1] == all[n + 1] && y[1] == all[n + 1]);
            byte_order::law_little_endian_value(a[last][0], 0);
            byte_order::law_little_endian_value(b[last][0], 0);
            if len > 1 {
                assert(x[2] == all[n + 2] && y[2] == all[n + 2]);
                assert(x[3] == all[n + 3] && y[3] == all[n + 3]);
                byte_order::law_little_endian_value(a[last][len / 2], 0);
                byte_order::law_little_endian_value(b[last][len / 2], 0);
                byte_order::law_little_endian_value(a[last][len - 1], 0);
                byte_order::law_little_endian_value(b[last][len - 1], 0);
            }
        }
        assert(sampled_alike(a[last], b[last]));
        assert(x =~= y);
        assert forall|i: int| 0 <= i < k implies sampled_alike(#[trigger] a[i], b[i]) by {
            if i < m {
                assert(sampled_alike(a[i], b[i]));
            }
        }
    }
}

/// What is hashed for the key of layers tells layers apart by their number, their lengths, and
/// their first, middle and last factors.
pub proof fn law_samples_tell_layers_apart(a: Seq<Seq<u32>>, b: Seq<Seq<u32>>)
    requires
        a.len() <= u64::MAX,
        b.len() <= u64::MAX,
        forall|i: int| 0 <= i < a.len() ==> (#[trigger] a[i]).len() <= u64::MAX,
        forall|i: int| 0 <= i < b.len() ==> (#[trigger] b[i]).len() <= u64::MAX,
        samples_upto(a, a.len()) == samples_upto(b, b.len()),
    ensures
        a.len() == b.len(),
        forall|i: int| 0 <= i < a.len() ==> sampled_alike(#[trigger] a[i], b[i]),
{
    lemma_samples_prefix(a, 0, a.len());
    lemma_samples_prefix(b, 0, b.len());
    let all = samples_upto(a, a.len());
    assert(all.take(1)[0] == byte_order::le64(a.len() as u64));
    assert(all.take(1)[0] == byte_order::le64(b.len() as u64));
    byte_order::law_little_endian_value(0, a.len() as u64);
    byte_order::law_little_endian_value(0, b.len() as u64);
    lemma_first_layers_alike(a, b, a.len());
}

} // verus!
