//! Little-endian words in byte sequences.
use vstd::prelude::*;

verus! {

/// The four bytes of `x`, lowest first.
#[verifier::opaque]
pub open spec fn le32(x: u32) -> Seq<u8> {
    seq![
        (x % 256) as u8,
        (x / 256 % 256) as u8,
        (x / 65536 % 256) as u8,
        (x / 16777216) as u8,
    ]
}

/// The eight bytes of `x`, lowest first.
pub open spec fn le64(x: u64) -> Seq<u8> {
    le32((x % 0x1_0000_0000) as u32) + le32((x / 0x1_0000_0000) as u32)
}

/// The bytes of several words, one after the other.
#[verifier::opaque]
pub open spec fn le32s(ws: Seq<u32>) -> Seq<u8> {
    Seq::new(4 * ws.len(), |i: int| le32(ws[i / 4])[i % 4])
}

/// The word whose bytes start at `at`.
#[verifier::opaque]
pub open spec fn word(d: Seq<u8>, at: int) -> u32 {
    (d[at] + 256 * d[at + 1] + 65536 * d[at + 2] + 16777216 * d[at + 3]) as u32
}

/// The `n` words that start at `at`.
pub open spec fn words(d: Seq<u8>, at: int, n: nat) -> Seq<u32> {
    Seq::new(n, |j: int| word(d, at + 4 * j))
}

pub broadcast proof fn lemma_le32_len(x: u32)
    ensures
        #[trigger] le32(x).len() == 4,
{
    reveal(le32);
}

pub broadcast proof fn lemma_le32s_len(ws: Seq<u32>)
    ensures
        #[trigger] le32s(ws).len() == 4 * ws.len(),
{
    reveal(le32s);
}

/// What the word at a place is, given the bytes there.
pub proof fn lemma_word_of_le32(d: Seq<u8>, at: int, x: u32)
    requires
        0 <= at,
        at + 4 <= d.len(),
        d.subrange(at, at + 4) == le32(x),
    ensures
        word(d, at) == x,
{
    reveal(le32);
    reveal(word);
    let s = d.subrange(at, at + 4);
    assert(s[0] == d[at] && s[1] == d[at + 1] && s[2] == d[at + 2] && s[3] == d[at + 3]);
}

/// What the bytes at a place are, given the word there.
pub proof fn lemma_le32_of_word(d: Seq<u8>, at: int)
    requires
        0 <= at,
        at + 4 <= d.len(),
    ensures
        le32(word(d, at)) == d.subrange(at, at + 4),
{
    reveal(le32);
    reveal(word);
    let (a, b, c, e) = (d[at] as int, d[at + 1] as int, d[at + 2] as int, d[at + 3] as int);
    let x = a + 256 * b + 65536 * c + 16777216 * e;
    assert(word(d, at) == x);
    assert(x % 256 == a && x / 256 == b + 256 * c + 65536 * e);
    assert((b + 256 * c + 65536 * e) % 256 == b);
    assert(x / 65536 == c + 256 * e && (c + 256 * e) % 256 == c);
    assert(x / 16777216 == e);
    assert(le32(word(d, at)) =~= d.subrange(at, at + 4));
}

/// The bytes of one more word come last.
pub proof fn lemma_le32s_push(ws: Seq<u32>, x: u32)
    ensures
        le32s(ws.push(x)) == le32s(ws) + le32(x),
{
    reveal(le32s);
    lemma_le32_len(x);
    assert(le32s(ws.push(x)) =~= le32s(ws) + le32(x));
}

/// Writing words and reading them back gives the words.
pub proof fn lemma_words_of_le32s(d: Seq<u8>, at: int, ws: Seq<u32>)
    requires
        0 <= at,
        at + 4 * ws.len() <= d.len(),
        d.subrange(at, at + 4 * ws.len()) == le32s(ws),
    ensures
        words(d, at, ws.len()) == ws,
{
    reveal(le32s);
    reveal(le32);
    assert forall|j: int| 0 <= j < ws.len() implies word(d, at + 4 * j) == ws[j] by {
        let s = d.subrange(at, at + 4 * ws.len());
        assert forall|k: int| 0 <= k < 4 implies d[at + 4 * j + k] == le32(ws[j])[k] by {
            assert(s[4 * j + k] == d[at + 4 * j + k]);
            assert((4 * j + k) / 4 == j && (4 * j + k) % 4 == k);
        }
        assert(d.subrange(at + 4 * j, at + 4 * j + 4) =~= le32(ws[j]));
        lemma_word_of_le32(d, at + 4 * j, ws[j]);
    }
    assert(words(d, at, ws.len()) =~= ws);
}

/// Reading words and writing them back gives the bytes.
pub proof fn lemma_le32s_of_words(d: Seq<u8>, at: int, n: nat)
    requires
        0 <= at,
        at + 4 * n <= d.len(),
    ensures
        le32s(words(d, at, n)) == d.subrange(at, at + 4 * n),
{
    reveal(le32s);
    reveal(le32);
    let ws = words(d, at, n);
    assert forall|i: int| 0 <= i < 4 * n implies le32s(ws)[i] == d[at + i] by {
        let j = i / 4;
        lemma_le32_of_word(d, at + 4 * j);
        assert(d.subrange(at + 4 * j, at + 4 * j + 4)[i % 4] == d[at + i]);
    }
    assert(le32s(ws) =~= d.subrange(at, at + 4 * n));
}

/// Words read the same from a sequence and from a part that holds them.
pub broadcast proof fn lemma_word_of_part(d: Seq<u8>, from: int, to: int, at: int)
    requires
        0 <= from,
        0 <= at,
        from + at + 4 <= to <= d.len(),
    ensures
        #[trigger] word(d.subrange(from, to), at) == word(d, from + at),
{
    reveal(word);
}

/// Words read the same from a sequence and from a prefix that holds them.
pub broadcast proof fn lemma_word_of_prefix(d: Seq<u8>, n: int, at: int)
    requires
        0 <= at,
        at + 4 <= n <= d.len(),
    ensures
        #[trigger] word(d.take(n), at) == word(d, at),
{
    reveal(word);
}

/// Words read the same from a sequence and from one that goes on behind it.
pub broadcast proof fn lemma_word_of_longer(d: Seq<u8>, e: Seq<u8>, at: int)
    requires
        0 <= at,
        at + 4 <= d.len(),
    ensures
        #[trigger] word(d + e, at) == word(d, at),
{
    reveal(word);
}

pub broadcast group group_words {
    lemma_le32_len,
    lemma_le32s_len,
    lemma_word_of_part,
    lemma_word_of_prefix,
    lemma_word_of_longer,
}

pub fn push_le32(out: &mut Vec<u8>, x: u32)
    ensures
        final(out)@ == old(out)@ + le32(x),
{
    reveal(le32);
    out.push((x % 256) as u8);
    out.push((x / 256 % 256) as u8);
    out.push((x / 65536 % 256) as u8);
    out.push((x / 16777216) as u8);
    assert(out@ =~= old(out)@ + le32(x));
}

pub fn push_le64(out: &mut Vec<u8>, x: u64)
    ensures
        final(out)@ == old(out)@ + le64(x),
{
    broadcast use lemma_le32_len;
    push_le32(out, (x % 0x1_0000_0000) as u32);
    push_le32(out, (x / 0x1_0000_0000) as u32);
    assert(out@ =~= old(out)@ + le64(x));
}

pub fn push_bytes(out: &mut Vec<u8>, more: &[u8])
    ensures
        final(out)@ == old(out)@ + more@,
{
    let mut i: usize = 0;
    while i < more.len()
        invariant
            i <= more.len(),
            out@ == old(out)@ + more@.take(i as int),
        decreases more.len() - i,
    {
        out.push(more[i]);
        i += 1;
        assert(more@.take(i as int) =~= more@.take(i - 1).push(more@[i - 1]));
    }
    assert(more@.take(i as int) =~= more@);
}

pub fn word_at(d: &[u8], at: usize) -> (r: u32)
    requires
        at + 4 <= d@.len(),
    ensures
        r == word(d@, at as int),
{
    reveal(word);
    d[at] as u32 + 256 * (d[at + 1] as u32) + 65536 * (d[at + 2] as u32) + 16777216 * (d[at + 3]
        as u32)
}

/// The low 32 bits of a length, as the files store it.
pub fn low32(n: usize) -> (r: u32)
    ensures
        r == n as int % 0x1_0000_0000,
{
    (n as u64 % 0x1_0000_0000) as u32
}

/// A word's bytes stand lowest first, one word after the other: the bytes of
/// word `i`, weighted by their places, add up to it, and what is read at a place
/// adds up in the same way.
pub proof fn law_bytes_add_up_to_their_words(ws: Seq<u32>, i: int, d: Seq<u8>, at: int)
    requires
        0 <= i < ws.len(),
    ensures
        le32s(ws).len() == 4 * ws.len(),
        le32s(ws)[4 * i] + 0x100 * le32s(ws)[4 * i + 1] + 0x1_0000 * le32s(ws)[4 * i + 2]
            + 0x100_0000 * le32s(ws)[4 * i + 3] == ws[i],
        le32(ws[i]) == le32s(ws).subrange(4 * i, 4 * i + 4),
        word(d, at) == d[at] + 0x100 * d[at + 1] + 0x1_0000 * d[at + 2] + 0x100_0000 * d[at + 3],
{
    reveal(le32s);
    reveal(le32);
    reveal(word);
    assert forall|k: int| 0 <= k < 4 implies le32s(ws)[4 * i + k] == le32(ws[i])[k] by {
        assert((4 * i + k) / 4 == i && (4 * i + k) % 4 == k);
    }
    assert(le32s(ws)[4 * i + 0] == le32(ws[i])[0]);
    assert(le32s(ws)[4 * i + 1] == le32(ws[i])[1]);
    assert(le32s(ws)[4 * i + 2] == le32(ws[i])[2]);
    assert(le32s(ws)[4 * i + 3] == le32(ws[i])[3]);
    assert(le32(ws[i]) =~= le32s(ws).subrange(4 * i, 4 * i + 4));
}

/// Eight bytes are two words, the low one first.
pub proof fn law_long_words_are_two_words(x: u64)
    ensures
        le64(x).len() == 8,
        word(le64(x), 0) + 0x1_0000_0000 * word(le64(x), 4) == x,
{
    let low = (x % 0x1_0000_0000) as u32;
    let high = (x / 0x1_0000_0000) as u32;
    lemma_le32_len(low);
    lemma_le32_len(high);
    assert(le64(x).subrange(0, 4) =~= le32(low));
    assert(le64(x).subrange(4, 8) =~= le32(high));
    lemma_word_of_le32(le64(x), 0, low);
    lemma_word_of_le32(le64(x), 4, high);
}

} // verus!
