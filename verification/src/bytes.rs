//! Little-endian `u32` words inside a byte buffer.
//!
//! The plan keeps its schedule, its references and its sample buffers as `u32` words in one
//! buffer of bytes. A sample is the bit pattern of a single-precision number.

use vstd::prelude::*;

verus! {

/// The word stored in the four bytes from `off` on.
pub open spec fn word_at(b: Seq<u8>, off: int) -> u32 {
    (b[off] as int + 0x100 * (b[off + 1] as int) + 0x1_0000 * (b[off + 2] as int) + 0x100_0000 * (b[off
        + 3] as int)) as u32
}

/// The four bytes that store the word `v`.
pub open spec fn word_bytes(v: u32) -> Seq<u8> {
    seq![
        (v as int % 0x100) as u8,
        (v as int / 0x100 % 0x100) as u8,
        (v as int / 0x1_0000 % 0x100) as u8,
        (v as int / 0x100_0000) as u8,
    ]
}

/// `n` consecutive words from `off` on.
pub open spec fn words(b: Seq<u8>, off: int, n: int) -> Seq<u32> {
    Seq::new(n as nat, |i: int| word_at(b, off + 4 * i))
}

/// `b` with the bytes from `off` on replaced by `data`.
pub open spec fn put_bytes(b: Seq<u8>, off: int, data: Seq<u8>) -> Seq<u8> {
    Seq::new(
        b.len(),
        |i: int|
            if off <= i < off + data.len() {
                data[i - off]
            } else {
                b[i]
            },
    )
}

/// `b` with the word at `off` replaced by `v`.
pub open spec fn put_word(b: Seq<u8>, off: int, v: u32) -> Seq<u8> {
    put_bytes(b, off, word_bytes(v))
}

/// `b` with the words from `off` on replaced by `ws`.
pub open spec fn put_words(b: Seq<u8>, off: int, ws: Seq<u32>) -> Seq<u8> {
    Seq::new(
        b.len(),
        |i: int|
            if off <= i < off + 4 * ws.len() {
                word_bytes(ws[(i - off) / 4])[(i - off) % 4]
            } else {
                b[i]
            },
    )
}

/// Two buffers hold the same bytes between `lo` and `hi`.
pub open spec fn agree(a: Seq<u8>, b: Seq<u8>, lo: int, hi: int) -> bool {
    forall|i: int| lo <= i < hi ==> #[trigger] a[i] == b[i]
}

/// The bytes of a word spell the word.
pub proof fn lemma_word_bytes(b: Seq<u8>, off: int, v: u32)
    requires
        forall|k: int| 0 <= k < 4 ==> b[off + k] == #[trigger] word_bytes(v)[k],
    ensures
        word_at(b, off) == v,
{
    assert(b[off + 0] == word_bytes(v)[0]);
    assert(b[off + 1] == word_bytes(v)[1]);
    assert(b[off + 2] == word_bytes(v)[2]);
    assert(b[off + 3] == word_bytes(v)[3]);
    let x = v as int;
    assert(x == x % 0x100 + 0x100 * (x / 0x100 % 0x100) + 0x1_0000 * (x / 0x1_0000 % 0x100)
        + 0x100_0000 * (x / 0x100_0000));
}

/// A word spells its four bytes.
pub proof fn lemma_bytes_of_word(b: Seq<u8>, off: int, k: int)
    requires
        0 <= k < 4,
    ensures
        word_bytes(word_at(b, off))[k] == b[off + k],
{
    let b0 = b[off] as int;
    let b1 = b[off + 1] as int;
    let b2 = b[off + 2] as int;
    let b3 = b[off + 3] as int;
    let x = b0 + 0x100 * b1 + 0x1_0000 * b2 + 0x100_0000 * b3;
    assert(word_at(b, off) == x);
    assert(x % 0x100 == b0 && x / 0x100 == b1 + 0x100 * b2 + 0x1_0000 * b3);
    assert(x / 0x1_0000 == b2 + 0x100 * b3 && x / 0x100_0000 == b3);
    assert(x / 0x100 % 0x100 == b1 && x / 0x1_0000 % 0x100 == b2);
}

/// A word that was just written reads back.
pub proof fn lemma_put_word(b: Seq<u8>, off: int, v: u32)
    requires
        0 <= off,
        off + 4 <= b.len(),
    ensures
        word_at(put_word(b, off, v), off) == v,
        put_word(b, off, v).len() == b.len(),
{
    lemma_word_bytes(put_word(b, off, v), off, v);
}

/// A word is a matter of its four bytes.
pub proof fn lemma_word_agree(a: Seq<u8>, b: Seq<u8>, lo: int, hi: int, off: int)
    requires
        agree(a, b, lo, hi),
        lo <= off,
        off + 4 <= hi,
    ensures
        word_at(a, off) == word_at(b, off),
{
    assert(a[off] == b[off]);
    assert(a[off + 1] == b[off + 1]);
    assert(a[off + 2] == b[off + 2]);
    assert(a[off + 3] == b[off + 3]);
}

/// A run of words is a matter of its bytes.
pub proof fn lemma_words_agree(a: Seq<u8>, b: Seq<u8>, lo: int, hi: int, off: int, n: int)
    requires
        agree(a, b, lo, hi),
        lo <= off,
        0 <= n,
        off + 4 * n <= hi,
    ensures
        words(a, off, n) == words(b, off, n),
{
    assert forall|i: int| 0 <= i < n implies words(a, off, n)[i] == words(b, off, n)[i] by {
        lemma_word_agree(a, b, lo, hi, off + 4 * i);
    }
    assert(words(a, off, n) =~= words(b, off, n));
}

/// Words that were just written read back.
pub proof fn lemma_put_words(b: Seq<u8>, off: int, ws: Seq<u32>)
    requires
        0 <= off,
        off + 4 * ws.len() <= b.len(),
    ensures
        words(put_words(b, off, ws), off, ws.len() as int) == ws,
{
    let c = put_words(b, off, ws);
    assert forall|i: int| 0 <= i < ws.len() implies words(c, off, ws.len() as int)[i] == ws[i] by {
        assert forall|k: int| 0 <= k < 4 implies c[off + 4 * i + k] == #[trigger] word_bytes(
            ws[i],
        )[k] by {
            assert((4 * i + k) / 4 == i && (4 * i + k) % 4 == k);
        }
        lemma_word_bytes(c, off + 4 * i, ws[i]);
    }
    assert(words(c, off, ws.len() as int) =~= ws);
}

/// Writes the word `value` at `off`.
pub fn write_u32(buf: &mut Vec<u8>, off: usize, value: u32)
    requires
        off + 4 <= old(buf).len(),
    ensures
        final(buf)@ == put_word(old(buf)@, off as int, value),
{
    let b0: u8 = (value % 0x100) as u8;
    let b1: u8 = (value / 0x100 % 0x100) as u8;
    let b2: u8 = (value / 0x1_0000 % 0x100) as u8;
    let b3: u8 = (value / 0x100_0000) as u8;
    buf.set(off, b0);
    buf.set(off + 1, b1);
    buf.set(off + 2, b2);
    buf.set(off + 3, b3);
    assert(buf@ =~= put_word(old(buf)@, off as int, value));
}

/// Writes the word `value` at `off`; states what a reader of the buffer sees.
pub(crate) fn store_u32(buf: &mut Vec<u8>, off: usize, value: u32)
    requires
        off + 4 <= old(buf).len(),
    ensures
        final(buf).len() == old(buf).len(),
        word_at(final(buf)@, off as int) == value,
        agree(old(buf)@, final(buf)@, 0, off as int),
        agree(old(buf)@, final(buf)@, off + 4, old(buf).len() as int),
{
    proof {
        lemma_put_word(buf@, off as int, value);
    }
    write_u32(buf, off, value);
}

/// Reads the word at `off`.
pub fn read_u32(buf: &Vec<u8>, off: usize) -> (value: u32)
    requires
        off + 4 <= buf.len(),
    ensures
        value == word_at(buf@, off as int),
{
    let b0: u32 = buf[off] as u32;
    let b1: u32 = buf[off + 1] as u32;
    let b2: u32 = buf[off + 2] as u32;
    let b3: u32 = buf[off + 3] as u32;
    b0 + 0x100 * b1 + 0x1_0000 * b2 + 0x100_0000 * b3
}

/// Copies `n` bytes out of the buffer, from `off` on.
pub fn read_bytes(buf: &Vec<u8>, off: usize, n: usize) -> (data: Vec<u8>)
    requires
        off + n <= buf.len(),
    ensures
        data@ == buf@.subrange(off as int, off + n),
{
    let mut data: Vec<u8> = Vec::new();
    let mut i: usize = 0;
    while i < n
        invariant
            i <= n,
            off + n <= buf.len(),
            data@ == buf@.subrange(off as int, off + i),
        decreases n - i,
    {
        data.push(buf[off + i]);
        assert(buf@.subrange(off as int, off + i + 1) =~= buf@.subrange(off as int, off + i).push(
            buf@[off + i],
        ));
        i = i + 1;
    }
    data
}

/// Overwrites the bytes from `off` on with the first `n` bytes of `data`.
pub fn write_bytes(buf: &mut Vec<u8>, off: usize, data: &Vec<u8>, n: usize)
    requires
        n <= data.len(),
        off + n <= old(buf).len(),
    ensures
        final(buf)@ == put_bytes(old(buf)@, off as int, data@.take(n as int)),
{
    let mut i: usize = 0;
    assert(buf@ =~= put_bytes(old(buf)@, off as int, data@.take(0)));
    while i < n
        invariant
            i <= n <= data.len(),
            off + n <= old(buf).len(),
            buf@ == put_bytes(old(buf)@, off as int, data@.take(i as int)),
        decreases n - i,
    {
        buf.set(off + i, data[i]);
        i = i + 1;
        assert(buf@ =~= put_bytes(old(buf)@, off as int, data@.take(i as int)));
    }
}

/// Copies `n` words out of the buffer, from `off` on.
pub fn read_words(buf: &Vec<u8>, off: usize, n: usize) -> (data: Vec<u32>)
    requires
        off + 4 * n <= buf.len(),
    ensures
        data@ == words(buf@, off as int, n as int),
{
    let mut data: Vec<u32> = Vec::new();
    let mut i: usize = 0;
    while i < n
        invariant
            i <= n,
            off + 4 * n <= buf.len(),
            data@ =~= words(buf@, off as int, i as int),
        decreases n - i,
    {
        data.push(read_u32(buf, off + 4 * i));
        i = i + 1;
    }
    data
}

/// One more word of a run of words.
proof fn lemma_put_words_step(b: Seq<u8>, off: int, ws: Seq<u32>, v: u32)
    requires
        0 <= off,
        off + 4 * (ws.len() + 1) <= b.len(),
    ensures
        put_word(put_words(b, off, ws), off + 4 * ws.len(), v) == put_words(b, off, ws.push(v)),
{
    let n = ws.len() as int;
    let a = put_word(put_words(b, off, ws), off + 4 * n, v);
    let c = put_words(b, off, ws.push(v));
    assert forall|i: int| 0 <= i < b.len() implies a[i] == c[i] by {
        if off <= i < off + 4 * n {
            assert((i - off) / 4 < n);
        } else if off + 4 * n <= i < off + 4 * n + 4 {
            assert((i - off) / 4 == n && (i - off) % 4 == i - off - 4 * n);
        }
    }
    assert(a =~= c);
}

/// Overwrites the words from `off` on with the first `n` words of `data`.
pub fn write_words(buf: &mut Vec<u8>, off: usize, data: &Vec<u32>, n: usize)
    requires
        n <= data.len(),
        off + 4 * n <= old(buf).len(),
    ensures
        final(buf)@ == put_words(old(buf)@, off as int, data@.take(n as int)),
{
    let mut i: usize = 0;
    assert(buf@ =~= put_words(old(buf)@, off as int, data@.take(0)));
    while i < n
        invariant
            i <= n <= data.len(),
            off + 4 * n <= old(buf).len(),
            buf@ == put_words(old(buf)@, off as int, data@.take(i as int)),
        decreases n - i,
    {
        write_u32(buf, off + 4 * i, data[i]);
        proof {
            lemma_put_words_step(old(buf)@, off as int, data@.take(i as int), data@[i as int]);
            assert(data@.take(i as int).push(data@[i as int]) =~= data@.take(i + 1));
        }
        i = i + 1;
    }
}

/// Overwrites `n` words from `off` on with copies of `value`.
pub fn fill_words(buf: &mut Vec<u8>, off: usize, n: usize, value: u32)
    requires
        off + 4 * n <= old(buf).len(),
    ensures
        final(buf)@ == put_words(old(buf)@, off as int, Seq::new(n as nat, |i: int| value)),
{
    let mut i: usize = 0;
    assert(buf@ =~= put_words(old(buf)@, off as int, Seq::new(0, |i: int| value)));
    while i < n
        invariant
            i <= n,
            off + 4 * n <= old(buf).len(),
            buf@ == put_words(old(buf)@, off as int, Seq::new(i as nat, |i: int| value)),
        decreases n - i,
    {
        write_u32(buf, off + 4 * i, value);
        proof {
            lemma_put_words_step(old(buf)@, off as int, Seq::new(i as nat, |i: int| value), value);
            assert(Seq::new(i as nat, |i: int| value).push(value) =~= Seq::new(
                (i + 1) as nat,
                |i: int| value,
            ));
        }
        i = i + 1;
    }
}

/// The bytes that store a list of words.
pub open spec fn packed(ws: Seq<u32>) -> Seq<u8> {
    Seq::new(4 * ws.len(), |i: int| word_bytes(ws[i / 4])[i % 4])
}

/// Packed words read back.
pub proof fn lemma_packed(ws: Seq<u32>)
    ensures
        packed(ws).len() == 4 * ws.len(),
        words(packed(ws), 0, ws.len() as int) == ws,
        forall|i: int| 0 <= i < ws.len() ==> word_at(packed(ws), 4 * i) == #[trigger] ws[i],
{
    let b = packed(ws);
    assert forall|i: int| 0 <= i < ws.len() implies word_at(b, 4 * i) == #[trigger] ws[i] by {
        assert forall|k: int| 0 <= k < 4 implies b[4 * i + k] == #[trigger] word_bytes(ws[i])[k] by {
            assert((4 * i + k) / 4 == i && (4 * i + k) % 4 == k);
        }
        lemma_word_bytes(b, 4 * i, ws[i]);
    }
    assert(words(b, 0, ws.len() as int) =~= ws);
}

} // verus!
