//! Big-endian and little-endian byte sequences of machine integers.

use vstd::prelude::*;

verus! {

/// The two bytes of `x`, most significant first.
pub open spec fn be16(x: u16) -> Seq<u8> {
    seq![(x / 256) as u8, (x % 256) as u8]
}

/// The four bytes of `x`, most significant first.
pub open spec fn be32(x: u32) -> Seq<u8> {
    seq![
        (x / 0x100_0000) as u8,
        ((x / 0x1_0000) % 256) as u8,
        ((x / 256) % 256) as u8,
        (x % 256) as u8,
    ]
}

/// The four bytes of `x`, least significant first.
pub open spec fn le32(x: u32) -> Seq<u8> {
    be32(x).reverse()
}

/// The eight bytes of `x`, least significant first.
pub open spec fn le64(x: u64) -> Seq<u8> {
    le32((x % 0x1_0000_0000) as u32) + le32((x / 0x1_0000_0000) as u32)
}

/// The bytes of a sequence of words, each least significant first.
pub open spec fn le_words(words: Seq<u32>) -> Seq<u8> {
    Seq::new(4 * words.len(), |i: int| le32(words[i / 4])[i % 4])
}

/// Appends the big-endian bytes of a 16-bit number.
pub fn push_be16(out: &mut Vec<u8>, x: u16)
    ensures
        final(out)@ == old(out)@ + be16(x),
{
    out.push((x / 256) as u8);
    out.push((x % 256) as u8);
}

/// Appends the big-endian bytes of a 32-bit number.
pub fn push_be32(out: &mut Vec<u8>, x: u32)
    ensures
        final(out)@ == old(out)@ + be32(x),
{
    out.push((x / 0x100_0000) as u8);
    out.push(((x / 0x1_0000) % 256) as u8);
    out.push(((x / 256) % 256) as u8);
    out.push((x % 256) as u8);
}

/// Appends the little-endian bytes of a 32-bit number.
pub fn push_le32(out: &mut Vec<u8>, x: u32)
    ensures
        final(out)@ == old(out)@ + le32(x),
{
    out.push((x % 256) as u8);
    out.push(((x / 256) % 256) as u8);
    out.push(((x / 0x1_0000) % 256) as u8);
    out.push((x / 0x100_0000) as u8);
}

/// Appends the little-endian bytes of a 64-bit number.
pub fn push_le64(out: &mut Vec<u8>, x: u64)
    ensures
        final(out)@ == old(out)@ + le64(x),
{
    push_le32(out, (x % 0x1_0000_0000) as u32);
    push_le32(out, (x / 0x1_0000_0000) as u32);
}

/// Appends the little-endian bytes of each word in turn.
pub fn push_le_words(out: &mut Vec<u8>, words: &[u32])
    ensures
        final(out)@ == old(out)@ + le_words(words@),
{
    let ghost before = out@;
    for i in 0..words.len()
        invariant
            out@ == before + le_words(words@.take(i as int)),
    {
        push_le32(out, words[i]);
        proof {
            let shorter = le_words(words@.take(i as int));
            let longer = le_words(words@.take(i + 1));
            assert forall|k: int| 0 <= k < longer.len() implies longer[k] == (shorter + le32(
                words@[i as int],
            ))[k] by {
                if k >= 4 * i {
                    assert(k / 4 == i && k % 4 == k - 4 * i);
                } else {
                    assert(k / 4 < i);
                }
            }
            assert(longer =~= shorter + le32(words@[i as int]));
        }
    }
    assert(words@.take(words@.len() as int) =~= words@);
}

/// Two 16-bit numbers with the same bytes are equal.
pub proof fn lemma_be16_injective(x: u16, y: u16)
    requires
        be16(x) == be16(y),
    ensures
        x == y,
{
    assert(be16(x)[0] == be16(y)[0]);
    assert(be16(x)[1] == be16(y)[1]);
    assert(x / 256 <= 255 && y / 256 <= 255);
}

/// Two 32-bit numbers with the same bytes are equal.
pub proof fn lemma_be32_injective(x: u32, y: u32)
    requires
        be32(x) == be32(y),
    ensures
        x == y,
{
    assert(be32(x)[0] == be32(y)[0]);
    assert(be32(x)[1] == be32(y)[1]);
    assert(be32(x)[2] == be32(y)[2]);
    assert(be32(x)[3] == be32(y)[3]);
    assert(x / 0x100_0000 <= 255 && y / 0x100_0000 <= 255);
    assert(x / 0x1_0000 == (x / 0x1_0000) % 256 + 256 * (x / 0x100_0000));
    assert(y / 0x1_0000 == (y / 0x1_0000) % 256 + 256 * (y / 0x100_0000));
    assert(x / 256 == (x / 256) % 256 + 256 * (x / 0x1_0000));
    assert(y / 256 == (y / 256) % 256 + 256 * (y / 0x1_0000));
}

/// Two sequences of words with the same little-endian bytes are equal.
pub proof fn lemma_le_words_injective(a: Seq<u32>, b: Seq<u32>)
    requires
        le_words(a) == le_words(b),
    ensures
        a == b,
{
    assert(le_words(a).len() == 4 * a.len());
    assert(le_words(b).len() == 4 * b.len());
    assert forall|i: int| 0 <= i < a.len() implies a[i] == b[i] by {
        assert forall|k: int| 0 <= k < 4 implies le32(a[i])[k] == le32(b[i])[k] by {
            let j = 4 * i + k;
            assert(j / 4 == i && j % 4 == k);
            assert(0 <= j < 4 * a.len());
            assert(le_words(a)[j] == le32(a[i])[k]);
            assert(le_words(b)[j] == le32(b[i])[k]);
        }
        assert forall|k: int| 0 <= k < 4 implies be32(a[i])[k] == be32(b[i])[k] by {
            assert(le32(a[i])[3 - k] == be32(a[i])[k]);
            assert(le32(b[i])[3 - k] == be32(b[i])[k]);
        }
        assert(be32(a[i]) =~= be32(b[i]));
        lemma_be32_injective(a[i], b[i]);
    }
    assert(a =~= b);
}

/// Big-endian bytes are the digits of the number, most significant first.
pub proof fn law_big_endian_value(x: u16, y: u32)
    ensures
        be16(x).len() == 2,
        256 * be16(x)[0] + be16(x)[1] == x,
        be32(y).len() == 4,
        0x100_0000 * be32(y)[0] + 0x1_0000 * be32(y)[1] + 256 * be32(y)[2] + be32(y)[3] == y,
{
    assert(y / 0x1_0000 == (y / 0x1_0000) % 256 + 256 * (y / 0x100_0000));
    assert(y / 256 == (y / 256) % 256 + 256 * (y / 0x1_0000));
    assert(y / 0x100_0000 <= 255);
}

/// Little-endian bytes are the digits of the number, least significant first.
pub proof fn law_little_endian_value(x: u32, y: u64)
    ensures
        le32(x).len() == 4,
        le32(x)[0] + 256 * le32(x)[1] + 0x1_0000 * le32(x)[2] + 0x100_0000 * le32(x)[3] == x,
        le64(y).len() == 8,
        ({
            let b = le64(y);
            let low = b[0] + 256 * b[1] + 0x1_0000 * b[2] + 0x100_0000 * b[3];
            let high = b[4] + 256 * b[5] + 0x1_0000 * b[6] + 0x100_0000 * b[7];
            low + 0x1_0000_0000 * high == y
        }),
{
    law_big_endian_value(0, x);
    law_big_endian_value(0, (y % 0x1_0000_0000) as u32);
    law_big_endian_value(0, (y / 0x1_0000_0000) as u32);
    let low = le32((y % 0x1_0000_0000) as u32);
    let high = le32((y / 0x1_0000_0000) as u32);
    assert(le64(y)[0] == low[0] && le64(y)[1] == low[1]);
    assert(le64(y)[2] == low[2] && le64(y)[3] == low[3]);
    assert(le64(y)[4] == high[0] && le64(y)[5] == high[1]);
    assert(le64(y)[6] == high[2] && le64(y)[7] == high[3]);
}

/// The bytes of words are the bytes of each word in turn.
pub proof fn law_words_follow_one_another(words: Seq<u32>, i: int)
    requires
        0 <= i < words.len(),
    ensures
        le_words(words).len() == 4 * words.len(),
        le_words(words).subrange(4 * i, 4 * i + 4) == le32(words[i]),
{
    assert forall|k: int| 0 <= k < 4 implies #[trigger] le_words(words)[4 * i + k] == le32(
        words[i],
    )[k] by {
        assert((4 * i + k) / 4 == i && (4 * i + k) % 4 == k);
    }
    assert(le_words(words).subrange(4 * i, 4 * i + 4) =~= le32(words[i]));
}

} // verus!
