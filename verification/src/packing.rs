//! Several columns in one buffer, one after the other.

use crate::columns;
use crate::columns::push_column_words;
use crate::fields::BaseField;
use crate::utils;
use crate::utils::ilog2;
use vstd::prelude::*;

verus! {

/// Number of words in the first `k` columns.
pub open spec fn words_before<T>(cols: Seq<Seq<T>>, k: int) -> int
    decreases k,
{
    if k <= 0 {
        0
    } else {
        words_before(cols, k - 1) + cols[k - 1].len()
    }
}

/// More columns have no fewer words.
pub proof fn lemma_words_before_monotone<T>(cols: Seq<Seq<T>>, a: int, b: int)
    requires
        0 <= a <= b,
    ensures
        0 <= words_before(cols, a) <= words_before(cols, b),
    decreases b,
{
    if a < b {
        lemma_words_before_monotone(cols, a, b - 1);
    } else if b > 0 {
        lemma_words_before_monotone(cols, a - 1, b - 1);
    }
}

/// One more column adds its words at the end.
pub proof fn lemma_flatten_step<T>(cols: Seq<Seq<T>>, i: int)
    requires
        0 <= i < cols.len(),
    ensures
        cols.take(i + 1).flatten() == cols.take(i).flatten() + cols[i],
{
    assert(cols.take(i + 1) =~= cols.take(i).push(cols[i]));
    cols.take(i).lemma_flatten_push(cols[i]);
}

/// The first `k` columns have as many words as are counted.
pub proof fn lemma_flatten_len<T>(cols: Seq<Seq<T>>, k: int)
    requires
        0 <= k <= cols.len(),
    ensures
        cols.take(k).flatten().len() == words_before(cols, k),
    decreases k,
{
    if k == 0 {
        assert(cols.take(0) =~= Seq::empty());
    } else {
        lemma_flatten_len(cols, k - 1);
        lemma_flatten_step(cols, k - 1);
    }
}

/// The packed first columns are a prefix of the packed columns.
proof fn lemma_flatten_prefix<T>(cols: Seq<Seq<T>>, k: int)
    requires
        0 <= k <= cols.len(),
    ensures
        cols.take(k).flatten().len() == words_before(cols, k),
        words_before(cols, k) <= cols.flatten().len(),
        cols.flatten().take(words_before(cols, k)) == cols.take(k).flatten(),
    decreases cols.len() - k,
{
    lemma_flatten_len(cols, k);
    if k == cols.len() {
        assert(cols.take(k) =~= cols);
        assert(cols.flatten().take(cols.flatten().len() as int) =~= cols.flatten());
    } else {
        lemma_flatten_prefix(cols, k + 1);
        lemma_flatten_step(cols, k);
        let a = cols.take(k).flatten();
        let b = cols.take(k + 1).flatten();
        assert(cols.flatten().take(words_before(cols, k)) =~= a) by {
            assert forall|j: int| 0 <= j < a.len() implies cols.flatten()[j] == a[j] by {
                assert(cols.flatten().take(words_before(cols, k + 1))[j] == b[j]);
            }
        }
    }
}

/// A packed column can be found again: it starts after the words of the columns before
/// it.
pub proof fn law_packed_column_found<T>(cols: Seq<Seq<T>>, i: int)
    requires
        0 <= i < cols.len(),
    ensures
        0 <= words_before(cols, i),
        words_before(cols, i) + cols[i].len() <= cols.flatten().len(),
        cols.flatten().subrange(words_before(cols, i), words_before(cols, i) + cols[i].len())
            == cols[i],
{
    lemma_words_before_monotone(cols, 0, i);
    let start = words_before(cols, i);
    lemma_flatten_prefix(cols, i);
    lemma_flatten_prefix(cols, i + 1);
    lemma_flatten_step(cols, i);
    assert(cols.flatten().subrange(start, start + cols[i].len()) =~= cols[i]) by {
        let upto = cols.take(i + 1).flatten();
        assert forall|k: int| 0 <= k < cols[i].len() implies cols.flatten()[start + k]
            == cols[i][k] by {
            assert(cols.flatten().take(upto.len() as int)[start + k] == upto[start + k]);
        }
    }
}

/// The words of columns.
pub open spec fn all_words(cols: Seq<&[BaseField]>) -> Seq<Seq<u32>> {
    cols.map_values(|c: &[BaseField]| columns::column_words(c@))
}

/// Where each column starts, as a word.
pub open spec fn offsets(cols: Seq<Seq<u32>>) -> Seq<u32> {
    Seq::new(cols.len(), |i: int| words_before(cols, i) as u32)
}

/// Binary logarithms of the lengths of columns.
pub open spec fn log_sizes(cols: Seq<Seq<u32>>) -> Seq<u32> {
    Seq::new(cols.len(), |i: int| utils::floor_log2(cols[i].len() as int) as u32)
}

/// Columns in one buffer.
#[derive(Debug)]
pub struct Packed {
    /// The words of the columns, one column after the other.
    pub words: Vec<u32>,
    /// Where each column starts.
    pub offsets: Vec<u32>,
    /// Binary logarithm of each column's length.
    pub log_sizes: Vec<u32>,
}

/// Packs columns into one buffer.
pub fn pack_columns(cols: &[&[BaseField]]) -> (r: Packed)
    requires
        forall|i: int| 0 <= i < cols.len() ==> (#[trigger] cols@[i])@.len() > 0,
        words_before(all_words(cols@), cols@.len() as int) <= usize::MAX,
    ensures
        r.words@ == all_words(cols@).flatten(),
        r.offsets@ == offsets(all_words(cols@)),
        r.log_sizes@ == log_sizes(all_words(cols@)),
{
    let ghost views = all_words(cols@);
    let mut words: Vec<u32> = Vec::new();
    let mut starts: Vec<u32> = Vec::new();
    let mut logs: Vec<u32> = Vec::new();
    let mut total: usize = 0;
    assert(views.take(0) =~= Seq::empty());
    for i in 0..cols.len()
        invariant
            views == all_words(cols@),
            forall|k: int| 0 <= k < cols.len() ==> (#[trigger] cols@[k])@.len() > 0,
            words_before(views, cols@.len() as int) <= usize::MAX,
            total == words_before(views, i as int),
            words@ == views.take(i as int).flatten(),
            starts@ == offsets(views).take(i as int),
            logs@ == log_sizes(views).take(i as int),
    {
        let col: &[BaseField] = cols[i];
        proof {
            assert(cols@[i as int]@.len() > 0);
            assert(views[i as int] == columns::column_words(col@));
            lemma_words_before_monotone(views, i + 1, cols@.len() as int);
            lemma_flatten_step(views, i as int);
        }
        starts.push(total as u32);
        logs.push(ilog2(col.len()));
        push_column_words(&mut words, col);
        total = total + col.len();
        assert(starts@ =~= offsets(views).take(i + 1));
        assert(logs@ =~= log_sizes(views).take(i + 1));
    }
    assert(views.take(views.len() as int) =~= views);
    assert(starts@ =~= offsets(views));
    assert(logs@ =~= log_sizes(views));
    Packed { words, offsets: starts, log_sizes: logs }
}

} // verus!
