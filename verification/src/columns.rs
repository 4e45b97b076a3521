//! Columns of field elements and their words.

use crate::fields;
use crate::fields::{BaseField, SecureField};
use vstd::prelude::*;

verus! {

/// The words of a column of base field elements.
pub open spec fn column_words(column: Seq<BaseField>) -> Seq<u32> {
    column.map_values(|f: BaseField| f.0)
}

/// The words of extension field elements, four for each.
pub open spec fn felt_words(felts: Seq<SecureField>) -> Seq<u32> {
    Seq::new(4 * felts.len(), |i: int| felts[i / 4].words()[i % 4])
}

/// Appends the words of a column.
pub fn push_column_words(out: &mut Vec<u32>, column: &[BaseField])
    ensures
        final(out)@ == old(out)@ + column_words(column@),
{
    let ghost before = out@;
    for i in 0..column.len()
        invariant
            out@ == before + column_words(column@.take(i as int)),
    {
        out.push(column[i].0);
        assert(out@ =~= before + column_words(column@.take(i + 1)));
    }
    assert(column@.take(column@.len() as int) =~= column@);
}

/// Appends the words of an extension field element.
pub fn push_felt(out: &mut Vec<u32>, felt: SecureField)
    ensures
        final(out)@ == old(out)@ + felt.words(),
{
    let m31_array = felt.to_m31_array();
    out.push(m31_array[0].0);
    out.push(m31_array[1].0);
    out.push(m31_array[2].0);
    out.push(m31_array[3].0);
    assert(out@ =~= old(out)@ + felt.words());
}

/// One more element adds its words at the end.
pub proof fn lemma_felt_words_push(felts: Seq<SecureField>, felt: SecureField)
    ensures
        felt_words(felts.push(felt)) == felt_words(felts) + felt.words(),
{
    let longer = felt_words(felts.push(felt));
    let n = felts.len() as int;
    assert forall|k: int| 0 <= k < longer.len() implies longer[k] == (felt_words(felts)
        + felt.words())[k] by {
        if k >= 4 * n {
            assert(k / 4 == n && k % 4 == k - 4 * n);
        } else {
            assert(k / 4 < n);
        }
    }
    assert(longer =~= felt_words(felts) + felt.words());
}

/// The words of extension field elements, four for each.
pub fn felts_to_words(felts: &[SecureField]) -> (r: Vec<u32>)
    ensures
        r@ == felt_words(felts@),
{
    let mut out: Vec<u32> = Vec::new();
    assert(out@ =~= felt_words(felts@.take(0)));
    for i in 0..felts.len()
        invariant
            out@ == felt_words(felts@.take(i as int)),
    {
        push_felt(&mut out, felts[i]);
        proof {
            lemma_felt_words_push(felts@.take(i as int), felts@[i as int]);
            assert(felts@.take(i + 1) =~= felts@.take(i as int).push(felts@[i as int]));
        }
    }
    assert(felts@.take(felts@.len() as int) =~= felts@);
    out
}

/// The extension field element whose coordinates are the reductions of four words.
pub open spec fn reduced_felt(words: Seq<u32>, start: int) -> fields::Coords {
    fields::Coords {
        c0: words[start] as int,
        c1: words[start + 1] as int,
        c2: words[start + 2] as int,
        c3: words[start + 3] as int,
    }.reduced()
}

/// The extension field element whose coordinates are the reductions of four words.
pub fn felt_from_words(words: &[u32], start: usize) -> (r: SecureField)
    requires
        start + 4 <= words.len(),
    ensures
        r.wf(),
        r@ == reduced_felt(words@, start as int),
{
    SecureField::from_m31_array(
        [
            BaseField::from_u32(words[start]),
            BaseField::from_u32(words[start + 1]),
            BaseField::from_u32(words[start + 2]),
            BaseField::from_u32(words[start + 3]),
        ],
    )
}

/// Reads `n` extension field elements back from their words.
pub fn felts_from_words(words: &[u32], n: usize) -> (r: Vec<SecureField>)
    requires
        4 * n <= words.len(),
    ensures
        r.len() == n,
        forall|i: int|
            #![trigger r[i]]
            0 <= i < n ==> r[i].wf() && r[i]@ == reduced_felt(words@, 4 * i),
{
    let mut out: Vec<SecureField> = Vec::new();
    for i in 0..n
        invariant
            4 * n <= words.len(),
            out.len() == i,
            forall|k: int|
                #![trigger out[k]]
                0 <= k < i ==> out[k].wf() && out[k]@ == reduced_felt(words@, 4 * k),
    {
        out.push(felt_from_words(words, 4 * i));
    }
    out
}

/// Reading the words of canonical elements back gives the elements.
pub proof fn law_felt_words_roundtrip(felts: Seq<SecureField>, i: int)
    requires
        0 <= i < felts.len(),
        felts[i].wf(),
    ensures
        reduced_felt(felt_words(felts), 4 * i) == felts[i]@,
{
    let w = felt_words(felts);
    assert((4 * i) / 4 == i && (4 * i) % 4 == 0);
    assert((4 * i + 1) / 4 == i && (4 * i + 1) % 4 == 1);
    assert((4 * i + 2) / 4 == i && (4 * i + 2) % 4 == 2);
    assert((4 * i + 3) / 4 == i && (4 * i + 3) % 4 == 3);
}

/// Each element of a column gives one word, in its place, and each extension field element
/// its four coordinates in order.
pub proof fn law_words_keep_their_places(column: Seq<BaseField>, felts: Seq<SecureField>, i: int)
    ensures
        column_words(column).len() == column.len(),
        0 <= i < column.len() ==> column_words(column)[i] == column[i].0,
        felt_words(felts).len() == 4 * felts.len(),
        0 <= i < felts.len() ==> felt_words(felts).subrange(4 * i, 4 * i + 4) == seq![
            felts[i].c0.0,
            felts[i].c1.0,
            felts[i].c2.0,
            felts[i].c3.0,
        ],
{
    if 0 <= i < felts.len() {
        assert forall|k: int| 0 <= k < 4 implies #[trigger] felt_words(felts)[4 * i + k]
            == felts[i].words()[k] by {
            assert((4 * i + k) / 4 == i && (4 * i + k) % 4 == k);
        }
        assert(felt_words(felts).subrange(4 * i, 4 * i + 4) =~= felts[i].words());
    }
}

/// Splits a column into its two halves.
pub fn split_at_mid(column: Vec<BaseField>) -> (r: (Vec<BaseField>, Vec<BaseField>))
    ensures
        r.0@ == column@.take(column@.len() as int / 2),
        r.1@ == column@.skip(column@.len() as int / 2),
{
    let mut left: Vec<BaseField> = column;
    let mid: usize = left.len() / 2;
    let right = left.split_off(mid);
    assert(left@ =~= column@.take(mid as int));
    assert(right@ =~= column@.skip(mid as int));
    (left, right)
}

/// The halves of a column, joined, are the column.
pub proof fn law_halves_join(column: Seq<BaseField>)
    ensures
        column.take(column.len() as int / 2) + column.skip(column.len() as int / 2) == column,
{
    assert(column.take(column.len() as int / 2) + column.skip(column.len() as int / 2) =~= column);
}

/// A column of extension field elements, one column for each coordinate.
#[derive(Debug)]
pub struct SecureColumnByCoords {
    pub c0: Vec<BaseField>,
    pub c1: Vec<BaseField>,
    pub c2: Vec<BaseField>,
    pub c3: Vec<BaseField>,
}

/// The elements of such a column.
pub open spec fn by_coords(
    c0: Seq<BaseField>,
    c1: Seq<BaseField>,
    c2: Seq<BaseField>,
    c3: Seq<BaseField>,
) -> Seq<SecureField> {
    Seq::new(c0.len(), |i: int| SecureField { c0: c0[i], c1: c1[i], c2: c2[i], c3: c3[i] })
}

impl View for SecureColumnByCoords {
    type V = Seq<SecureField>;

    open spec fn view(&self) -> Seq<SecureField> {
        by_coords(self.c0@, self.c1@, self.c2@, self.c3@)
    }
}

impl SecureColumnByCoords {
    /// The coordinate columns have one length.
    pub open spec fn wf(self) -> bool {
        self.c0.len() == self.c1.len() == self.c2.len() == self.c3.len()
    }

    /// Every element is canonical.
    pub open spec fn canonical(self) -> bool {
        forall|i: int| 0 <= i < self@.len() ==> (#[trigger] self@[i]).wf()
    }

    pub fn len(&self) -> (r: usize)
        ensures
            r == self@.len(),
    {
        self.c0.len()
    }

    /// The element at an index.
    pub fn at(&self, i: usize) -> (r: SecureField)
        requires
            self.wf(),
            i < self@.len(),
        ensures
            r == self@[i as int],
    {
        SecureField { c0: self.c0[i], c1: self.c1[i], c2: self.c2[i], c3: self.c3[i] }
    }

    /// Replaces the element at an index.
    pub fn set(&mut self, i: usize, value: SecureField)
        requires
            old(self).wf(),
            i < old(self)@.len(),
        ensures
            final(self).wf(),
            final(self)@ == old(self)@.update(i as int, value),
    {
        self.c0.set(i, value.c0);
        self.c1.set(i, value.c1);
        self.c2.set(i, value.c2);
        self.c3.set(i, value.c3);
        assert(self@ =~= old(self)@.update(i as int, value));
    }

    /// The column of the given elements.
    pub fn from_felts(felts: &[SecureField]) -> (r: SecureColumnByCoords)
        ensures
            r.wf(),
            r@ == felts@,
    {
        let mut c0: Vec<BaseField> = Vec::new();
        let mut c1: Vec<BaseField> = Vec::new();
        let mut c2: Vec<BaseField> = Vec::new();
        let mut c3: Vec<BaseField> = Vec::new();
        for i in 0..felts.len()
            invariant
                c0.len() == i,
                c1.len() == i,
                c2.len() == i,
                c3.len() == i,
                by_coords(c0@, c1@, c2@, c3@) == felts@.take(i as int),
        {
            c0.push(felts[i].c0);
            c1.push(felts[i].c1);
            c2.push(felts[i].c2);
            c3.push(felts[i].c3);
            proof {
                let longer = by_coords(c0@, c1@, c2@, c3@);
                assert forall|k: int| 0 <= k < longer.len() implies longer[k] == felts@.take(
                    i + 1,
                )[k] by {
                    if k < i {
                        assert(felts@.take(i as int)[k] == felts@[k]);
                    }
                }
                assert(longer =~= felts@.take(i + 1));
            }
        }
        assert(felts@.take(felts@.len() as int) =~= felts@);
        SecureColumnByCoords { c0, c1, c2, c3 }
    }

    /// The column whose coordinates are given words.
    pub open spec fn words(self) -> Seq<Seq<u32>> {
        seq![
            column_words(self.c0@),
            column_words(self.c1@),
            column_words(self.c2@),
            column_words(self.c3@),
        ]
    }
}

} // verus!
