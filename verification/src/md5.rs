//! MD5 message digest (RFC 1321), used for ICC profile IDs.
use vstd::prelude::*;

verus! {

/// The four 32-bit chaining words of MD5.
pub type Md5Words = (u32, u32, u32, u32);

/// Per-step left-rotation amounts (RFC 1321 section 3.4).
pub const MD5_S: [u32; 64] = [
    7, 12, 17, 22, 7, 12, 17, 22, 7, 12, 17, 22, 7, 12, 17, 22, 5, 9, 14, 20, 5, 9, 14, 20, 5, 9,
    14, 20, 5, 9, 14, 20, 4, 11, 16, 23, 4, 11, 16, 23, 4, 11, 16, 23, 4, 11, 16, 23, 6, 10, 15,
    21, 6, 10, 15, 21, 6, 10, 15, 21, 6, 10, 15, 21,
];

/// Per-step additive constants T[i] = floor(2^32 * |sin(i + 1)|) (RFC 1321 section 3.4).
pub const MD5_K: [u32; 64] = [
    0xd76aa478, 0xe8c7b756, 0x242070db, 0xc1bdceee, 0xf57c0faf, 0x4787c62a, 0xa8304613, 0xfd469501,
    0x698098d8, 0x8b44f7af, 0xffff5bb1, 0x895cd7be, 0x6b901122, 0xfd987193, 0xa679438e, 0x49b40821,
    0xf61e2562, 0xc040b340, 0x265e5a51, 0xe9b6c7aa, 0xd62f105d, 0x02441453, 0xd8a1e681, 0xe7d3fbc8,
    0x21e1cde6, 0xc33707d6, 0xf4d50d87, 0x455a14ed, 0xa9e3e905, 0xfcefa3f8, 0x676f02d9, 0x8d2a4c8a,
    0xfffa3942, 0x8771f681, 0x6d9d6122, 0xfde5380c, 0xa4beea44, 0x4bdecfa9, 0xf6bb4b60, 0xbebfbc70,
    0x289b7ec6, 0xeaa127fa, 0xd4ef3085, 0x04881d05, 0xd9d4d039, 0xe6db99e5, 0x1fa27cf8, 0xc4ac5665,
    0xf4292244, 0x432aff97, 0xab9423a7, 0xfc93a039, 0x655b59c3, 0x8f0ccc92, 0xffeff47d, 0x85845dd1,
    0x6fa87e4f, 0xfe2ce6e0, 0xa3014314, 0x4e0811a1, 0xf7537e82, 0xbd3af235, 0x2ad7d2bb, 0xeb86d391,
];

/// Initial chaining value A, B, C, D.
pub open spec fn md5_init() -> Md5Words {
    (0x67452301u32, 0xefcdab89u32, 0x98badcfeu32, 0x10325476u32)
}

/// Addition modulo 2^32.
pub open spec fn add32(x: u32, y: u32) -> u32 {
    vstd::wrapping::u32_specs::wrapping_add(x, y)
}

/// Left rotation of a 32-bit word by `s` bits, 0 < s < 32.
pub open spec fn rotl32(x: u32, s: u32) -> u32 {
    (x << s) | (x >> ((32 - s) as u32))
}

/// The little-endian 32-bit word made of bytes `k .. k + 4` of `s`.
pub open spec fn le_word(s: Seq<u8>, k: int) -> u32 {
    (s[k] as u32) | ((s[k + 1] as u32) << 8u32) | ((s[k + 2] as u32) << 16u32) | ((s[k + 3] as u32)
        << 24u32)
}

/// The sixteen message words of a 64-byte block.
pub open spec fn block_words(block: Seq<u8>) -> Seq<u32> {
    Seq::new(16, |j: int| le_word(block, 4 * j))
}

/// The auxiliary function of step `i` (F, G, H or I of RFC 1321).
pub open spec fn md5_f(i: int, b: u32, c: u32, d: u32) -> u32 {
    if i < 16 {
        (b & c) | (!b & d)
    } else if i < 32 {
        (d & b) | (!d & c)
    } else if i < 48 {
        b ^ c ^ d
    } else {
        c ^ (b | !d)
    }
}

/// The message word used by step `i`.
pub open spec fn md5_g(i: int) -> int {
    if i < 16 {
        i
    } else if i < 32 {
        (5 * i + 1) % 16
    } else if i < 48 {
        (3 * i + 5) % 16
    } else {
        (7 * i) % 16
    }
}

/// One of the 64 steps of the compression function.
pub open spec fn md5_step(st: Md5Words, m: Seq<u32>, i: int) -> Md5Words {
    let (a, b, c, d) = st;
    let sum = add32(add32(add32(a, md5_f(i, b, c, d)), MD5_K[i]), m[md5_g(i)]);
    (d, add32(b, rotl32(sum, MD5_S[i])), b, c)
}

/// The first `n` steps of the compression function.
pub open spec fn md5_steps(st: Md5Words, m: Seq<u32>, n: nat) -> Md5Words
    decreases n,
{
    if n == 0 {
        st
    } else {
        md5_step(md5_steps(st, m, (n - 1) as nat), m, n - 1)
    }
}

/// The compression function applied to one 64-byte block.
pub open spec fn md5_compress(st: Md5Words, block: Seq<u8>) -> Md5Words {
    let r = md5_steps(st, block_words(block), 64);
    (add32(st.0, r.0), add32(st.1, r.1), add32(st.2, r.2), add32(st.3, r.3))
}

/// Compress every complete 64-byte block of `data`, front to back; a trailing
/// partial block is left out.
pub open spec fn md5_absorb(st: Md5Words, data: Seq<u8>) -> Md5Words
    decreases data.len(),
{
    if data.len() < 64 {
        st
    } else {
        md5_absorb(md5_compress(st, data.take(64)), data.skip(64))
    }
}

/// The little-endian bytes of a 64-bit value.
pub open spec fn le_bytes64(v: u64) -> Seq<u8> {
    Seq::new(8, |i: int| ((v >> (8 * i) as u64) & 0xff) as u8)
}

/// Number of zero bytes after the 0x80 marker for a message of `len` bytes.
pub open spec fn md5_zero_count(len: nat) -> nat {
    ((55 - (len % 64) as int) % 64) as nat
}

/// The MD5 padding of a message of `len` bytes: 0x80, zeros up to 56 mod 64,
/// then the bit length as a little-endian 64-bit value.
pub open spec fn md5_padding(len: nat) -> Seq<u8> {
    seq![0x80u8] + Seq::new(md5_zero_count(len), |i: int| 0u8) + le_bytes64((len * 8) as u64)
}

/// Word `k` (0 to 3) of a chaining value.
pub open spec fn md5_word(st: Md5Words, k: int) -> u32 {
    if k == 0 {
        st.0
    } else if k == 1 {
        st.1
    } else if k == 2 {
        st.2
    } else {
        st.3
    }
}

/// Where each byte of the padding comes from.
pub proof fn lemma_padding_index(len: nat, p: int)
    requires
        0 <= p < md5_padding(len).len(),
    ensures
        md5_padding(len).len() == 9 + md5_zero_count(len),
        p == 0 ==> md5_padding(len)[p] == 0x80u8,
        1 <= p < 1 + md5_zero_count(len) ==> md5_padding(len)[p] == 0u8,
        1 + md5_zero_count(len) <= p ==> md5_padding(len)[p] == le_bytes64((len * 8) as u64)[p - 1
            - md5_zero_count(len)],
{
    let z = Seq::new(md5_zero_count(len), |i: int| 0u8);
    let head = seq![0x80u8] + z;
    assert(md5_padding(len) == head + le_bytes64((len * 8) as u64));
    if p < head.len() {
        assert(md5_padding(len)[p] == head[p]);
    }
}

/// The 16 output bytes of a chaining value: A, B, C, D, each little-endian.
pub open spec fn md5_words_bytes(st: Md5Words) -> Seq<u8> {
    Seq::new(16, |i: int| ((md5_word(st, i / 4) >> (8 * (i % 4)) as u32) & 0xff) as u8)
}

/// The MD5 digest of `data`.
pub open spec fn md5_digest(data: Seq<u8>) -> Seq<u8> {
    md5_words_bytes(md5_absorb(md5_init(), data + md5_padding(data.len())))
}

/// Number of bytes of a message of length `len` that lie in complete blocks.
pub open spec fn full_len(len: nat) -> nat {
    (len - len % 64) as nat
}

/// Absorbing a whole number of blocks and then more data is the same as
/// absorbing all of it.
pub proof fn lemma_absorb_append(st: Md5Words, x: Seq<u8>, y: Seq<u8>)
    requires
        x.len() % 64 == 0,
    ensures
        md5_absorb(st, x + y) == md5_absorb(md5_absorb(st, x), y),
    decreases x.len(),
{
    if x.len() == 0 {
        assert(x + y =~= y);
    } else {
        assert((x + y).take(64) =~= x.take(64));
        assert((x + y).skip(64) =~= x.skip(64) + y);
        lemma_absorb_append(md5_compress(st, x.take(64)), x.skip(64), y);
    }
}

/// A trailing partial block does not change the chaining value.
pub proof fn lemma_absorb_partial(st: Md5Words, data: Seq<u8>)
    ensures
        md5_absorb(st, data) == md5_absorb(st, data.take(full_len(data.len()) as int)),
    decreases data.len(),
{
    if data.len() < 64 {
        assert(data.take(0) =~= Seq::<u8>::empty());
    } else {
        let rest = data.skip(64);
        lemma_absorb_partial(md5_compress(st, data.take(64)), rest);
        let t = data.take(full_len(data.len()) as int);
        assert(full_len(data.len()) == 64 + full_len(rest.len()));
        assert(t.take(64) =~= data.take(64));
        assert(t.skip(64) =~= rest.take(full_len(rest.len()) as int));
    }
}

/// Absorbing exactly one block compresses it.
pub proof fn lemma_absorb_one(st: Md5Words, b: Seq<u8>)
    requires
        b.len() == 64,
    ensures
        md5_absorb(st, b) == md5_compress(st, b),
{
    reveal_with_fuel(md5_absorb, 2);
    assert(b.take(64) =~= b);
    assert(b.skip(64).len() == 0);
}

/// Incremental MD5 hasher.
pub struct Md5 {
    state: [u32; 4],
    count: u64,
    buffer: [u8; 64],
    absorbed: Ghost<Seq<u8>>,
}

impl View for Md5 {
    type V = Seq<u8>;

    /// The bytes fed to the hasher so far.
    closed spec fn view(&self) -> Seq<u8> {
        self.absorbed@
    }
}

/// The four state words as a tuple.
pub open spec fn words_of(s: [u32; 4]) -> Md5Words {
    (s[0], s[1], s[2], s[3])
}

impl Md5 {
    /// The internal state agrees with the absorbed bytes.
    pub closed spec fn wf(&self) -> bool {
        let data = self.absorbed@;
        &&& data.len() == self.count
        &&& words_of(self.state) == md5_absorb(md5_init(), data)
        &&& forall|i: int|
            0 <= i < data.len() % 64 ==> #[trigger] self.buffer[i] == data[full_len(data.len())
                + i]
    }

    /// A hasher that has absorbed nothing.
    pub fn new() -> (r: Self)
        ensures
            r.wf(),
            r@ == Seq::<u8>::empty(),
    {
        Md5 {
            state: [0x67452301, 0xefcdab89, 0x98badcfe, 0x10325476],
            count: 0,
            buffer: [0u8; 64],
            absorbed: Ghost(Seq::empty()),
        }
    }

    /// Feed more bytes to the hasher.
    pub fn update(&mut self, data: &[u8])
        requires
            old(self).wf(),
            old(self)@.len() + data@.len() <= u64::MAX,
        ensures
            final(self).wf(),
            final(self)@ == old(self)@ + data@,
    {
        let ghost old_data = self.absorbed@;
        let ghost new_data = old_data + data@;
        let buf_used = (self.count % 64) as usize;
        if buf_used > 0 && data.len() < 64 - buf_used {
            self.update_within_buffer(data);
            return;
        }
        let new_count = self.count + data.len() as u64;
        let mut buf = self.buffer;
        let mut st = self.state;
        let offset = if buf_used > 0 {
            Self::complete_block(&mut st, &mut buf, buf_used, data, Ghost(old_data))
        } else {
            proof {
                lemma_absorb_partial(md5_init(), old_data);
                assert(old_data.take(old_data.len() as int) =~= old_data);
                assert(new_data.take(old_data.len() as int) =~= old_data);
            }
            0
        };
        let offset = Self::absorb_blocks(&mut st, data, offset, Ghost(old_data));
        let remaining = data.len() - offset;
        Self::copy_into(&mut buf, 0, data, offset, remaining);
        proof {
            let base = old_data.len() + offset;
            assert(full_len(new_data.len()) == base);
            lemma_absorb_partial(md5_init(), new_data);
            assert forall|i: int| 0 <= i < new_data.len() % 64 implies #[trigger] buf[i]
                == new_data[full_len(new_data.len()) + i] by {
                assert(new_data[base + i] == data@[offset + i]);
            }
        }
        self.buffer = buf;
        self.state = st;
        self.count = new_count;
        self.absorbed = Ghost(new_data);
    }

    /// The case of `update` where the new bytes do not complete the pending block.
    fn update_within_buffer(&mut self, data: &[u8])
        requires
            old(self).wf(),
            old(self)@.len() % 64 > 0,
            old(self)@.len() % 64 + data@.len() < 64,
        ensures
            final(self).wf(),
            final(self)@ == old(self)@ + data@,
    {
        let ghost old_data = self.absorbed@;
        let ghost new_data = old_data + data@;
        let ghost f0: int = full_len(old_data.len()) as int;
        let buf_used = (self.count % 64) as usize;
        let mut buf = self.buffer;
        Self::copy_into(&mut buf, buf_used, data, 0, data.len());
        proof {
            assert(full_len(new_data.len()) == f0);
            lemma_absorb_partial(md5_init(), old_data);
            lemma_absorb_partial(md5_init(), new_data);
            assert(new_data.take(f0) =~= old_data.take(f0));
            assert forall|i: int| 0 <= i < new_data.len() % 64 implies #[trigger] buf[i]
                == new_data[full_len(new_data.len()) + i] by {
                if i < buf_used {
                    assert(new_data[f0 + i] == old_data[f0 + i]);
                } else {
                    assert(new_data[f0 + i] == data@[i - buf_used]);
                }
            }
        }
        self.buffer = buf;
        self.count = self.count + data.len() as u64;
        self.absorbed = Ghost(new_data);
    }

    /// Fill the pending block from the start of `data` and compress it.
    fn complete_block(
        st: &mut [u32; 4],
        buf: &mut [u8; 64],
        buf_used: usize,
        data: &[u8],
        Ghost(prefix): Ghost<Seq<u8>>,
    ) -> (r: usize)
        requires
            0 < buf_used < 64,
            prefix.len() % 64 == buf_used,
            data.len() >= 64 - buf_used,
            words_of(*old(st)) == md5_absorb(md5_init(), prefix),
            forall|i: int|
                0 <= i < buf_used ==> #[trigger] old(buf)[i] == prefix[full_len(prefix.len()) + i],
        ensures
            r == 64 - buf_used,
            words_of(*final(st)) == md5_absorb(md5_init(), (prefix + data@).take(prefix.len() + r)),
    {
        let ghost d = prefix + data@;
        let ghost f0: int = full_len(prefix.len()) as int;
        let space = 64 - buf_used;
        Self::copy_into(buf, buf_used, data, 0, space);
        let ghost blk = d.subrange(f0, f0 + 64);
        proof {
            lemma_absorb_partial(md5_init(), prefix);
            assert(d.take(f0) =~= prefix.take(f0));
            assert forall|i: int| 0 <= i < 64 implies #[trigger] buf@[i] == blk[i] by {
                if i < buf_used {
                    assert(d[f0 + i] == prefix[f0 + i]);
                } else {
                    assert(d[f0 + i] == data@[i - buf_used]);
                }
            }
            assert(buf@ =~= blk);
            Self::lemma_extend_by_block(d, f0);
            assert(buf@.subrange(0, 64) =~= buf@);
        }
        Self::transform(st, buf.as_slice(), 0);
        space
    }

    /// Compress the complete blocks of `data` from `offset` on.
    fn absorb_blocks(st: &mut [u32; 4], data: &[u8], offset: usize, Ghost(prefix): Ghost<
        Seq<u8>,
    >) -> (r: usize)
        requires
            offset <= data.len(),
            (prefix.len() + offset) % 64 == 0,
            words_of(*old(st)) == md5_absorb(
                md5_init(),
                (prefix + data@).take(prefix.len() + offset),
            ),
        ensures
            offset <= r <= data.len(),
            data.len() - r < 64,
            (prefix.len() + r) % 64 == 0,
            words_of(*final(st)) == md5_absorb(md5_init(), (prefix + data@).take(prefix.len() + r)),
    {
        let ghost d = prefix + data@;
        let mut off = offset;
        while data.len() - off >= 64
            invariant
                offset <= off <= data.len(),
                d == prefix + data@,
                (prefix.len() + off) % 64 == 0,
                words_of(*st) == md5_absorb(md5_init(), d.take(prefix.len() + off)),
            decreases data.len() - off,
        {
            let ghost base = prefix.len() + off;
            proof {
                assert(data@.subrange(off as int, off + 64) =~= d.subrange(base, base + 64));
                Self::lemma_extend_by_block(d, base);
            }
            Self::transform(st, data, off);
            off = off + 64;
        }
        off
    }

    proof fn lemma_extend_by_block(d: Seq<u8>, base: int)
        requires
            0 <= base,
            base % 64 == 0,
            base + 64 <= d.len(),
        ensures
            md5_absorb(md5_init(), d.take(base + 64)) == md5_compress(
                md5_absorb(md5_init(), d.take(base)),
                d.subrange(base, base + 64),
            ),
    {
        let blk = d.subrange(base, base + 64);
        assert(d.take(base + 64) =~= d.take(base) + blk);
        lemma_absorb_append(md5_init(), d.take(base), blk);
        lemma_absorb_one(md5_absorb(md5_init(), d.take(base)), blk);
    }

    /// Copy `src[from .. from + n]` into `buf[at .. at + n]`.
    fn copy_into(buf: &mut [u8; 64], at: usize, src: &[u8], from: usize, n: usize)
        requires
            at + n <= 64,
            from + n <= src.len(),
        ensures
            forall|i: int|
                0 <= i < 64 && !(at <= i < at + n) ==> #[trigger] final(buf)[i] == old(buf)[i],
            forall|i: int| at <= i < at + n ==> #[trigger] final(buf)[i] == src@[from + i - at],
    {
        let mut j: usize = 0;
        while j < n
            invariant
                j <= n,
                at + n <= 64,
                from + n <= src.len(),
                forall|i: int|
                    0 <= i < 64 && !(at <= i < at + j) ==> #[trigger] buf[i] == old(buf)[i],
                forall|i: int| at <= i < at + j ==> #[trigger] buf[i] == src@[from + i - at],
            decreases n - j,
        {
            buf[at + j] = src[from + j];
            j = j + 1;
        }
    }

    /// Finish the computation and return the digest of all absorbed bytes.
    pub fn finish(self) -> (r: [u8; 16])
        requires
            self.wf(),
            self@.len() * 8 <= u64::MAX,
        ensures
            r@ == md5_digest(self@),
    {
        let ghost data = self.absorbed@;
        let ghost f0: int = full_len(data.len()) as int;
        let mut buf = self.buffer;
        let mut st = self.state;
        let bit_count = self.count * 8;
        let buf_used = (self.count % 64) as usize;
        let ghost pad = md5_padding(data.len());
        let ghost tail = data.skip(f0);
        proof {
            lemma_absorb_partial(md5_init(), data);
            assert(data + pad =~= data.take(f0) + (tail + pad));
            lemma_absorb_append(md5_init(), data.take(f0), tail + pad);
            assert(tail.len() == buf_used);
            assert(bit_count == (data.len() * 8) as u64);
        }
        let ghost st0 = words_of(st);
        assert(md5_absorb(md5_init(), data + pad) == md5_absorb(st0, tail + pad));
        buf[buf_used] = 0x80;
        let pad_start = buf_used + 1;
        if pad_start > 56 {
            Self::zero_range(&mut buf, pad_start, 64);
            let ghost b1 = buf@;
            proof {
                assert(md5_zero_count(data.len()) == 119 - buf_used);
                assert forall|i: int| 0 <= i < 64 implies #[trigger] (tail + pad).take(64)[i]
                    == b1[i] by {
                    if i < buf_used {
                    } else if i == buf_used {
                    } else {
                        assert((tail + pad)[i] == pad[i - buf_used]);
                        lemma_padding_index(data.len(), i - buf_used);
                    }
                }
                assert((tail + pad).take(64) =~= b1);
                lemma_absorb_one(st0, b1);
            }
            assert(buf@.subrange(0, 64) =~= buf@);
            Self::transform(&mut st, buf.as_slice(), 0);
            Self::zero_range(&mut buf, 0, 56);
            Self::put_le64(&mut buf, bit_count);
            let ghost b2 = buf@;
            proof {
                assert forall|i: int| 0 <= i < 64 implies #[trigger] (tail + pad).skip(64)[i]
                    == b2[i] by {
                    assert((tail + pad)[64 + i] == pad[64 + i - buf_used]);
                    lemma_padding_index(data.len(), 64 + i - buf_used);
                }
                assert((tail + pad).skip(64) =~= b2);
                assert((tail + pad) =~= b1 + b2);
                lemma_absorb_append(st0, b1, b2);
                lemma_absorb_one(md5_compress(st0, b1), b2);
            }
            assert(buf@.subrange(0, 64) =~= buf@);
            Self::transform(&mut st, buf.as_slice(), 0);
            assert(words_of(st) == md5_compress(md5_compress(st0, b1), b2));
            assert(words_of(st) == md5_absorb(st0, tail + pad));
        } else {
            Self::zero_range(&mut buf, pad_start, 56);
            Self::put_le64(&mut buf, bit_count);
            let ghost b1 = buf@;
            proof {
                assert(md5_zero_count(data.len()) == 55 - buf_used);
                assert forall|i: int| 0 <= i < 64 implies #[trigger] (tail + pad)[i] == b1[i] by {
                    if i < buf_used {
                    } else if i == buf_used {
                    } else {
                        assert((tail + pad)[i] == pad[i - buf_used]);
                        lemma_padding_index(data.len(), i - buf_used);
                    }
                }
                assert(tail + pad =~= b1);
                lemma_absorb_one(st0, b1);
            }
            assert(buf@.subrange(0, 64) =~= buf@);
            Self::transform(&mut st, buf.as_slice(), 0);
            assert(words_of(st) == md5_absorb(st0, tail + pad));
        }
        let ghost fin = words_of(st);
        assert(fin == md5_absorb(md5_init(), data + pad));
        let mut digest = [0u8; 16];
        let mut w: usize = 0;
        while w < 4
            invariant
                w <= 4,
                fin == words_of(st),
                forall|i: int| 0 <= i < 4 * w ==> #[trigger] digest[i] == md5_words_bytes(fin)[i],
            decreases 4 - w,
        {
            let word = st[w];
            proof {
                assert(md5_word(fin, w as int) == word);
                assert(word >> 0u32 == word) by (bit_vector);
                assert((4 * w + 1) / 4 == w && (4 * w + 1) % 4 == 1);
                assert((4 * w + 2) / 4 == w && (4 * w + 2) % 4 == 2);
                assert((4 * w + 3) / 4 == w && (4 * w + 3) % 4 == 3);
                assert((4 * w) / 4 == w && (4 * w) % 4 == 0);
            }
            digest[4 * w] = (word & 0xff) as u8;
            digest[4 * w + 1] = ((word >> 8u32) & 0xff) as u8;
            digest[4 * w + 2] = ((word >> 16u32) & 0xff) as u8;
            digest[4 * w + 3] = ((word >> 24u32) & 0xff) as u8;
            w = w + 1;
        }
        assert(digest@ =~= md5_words_bytes(fin));
        digest
    }

    /// Set `buf[from .. to]` to zero.
    fn zero_range(buf: &mut [u8; 64], from: usize, to: usize)
        requires
            from <= to <= 64,
        ensures
            forall|i: int|
                0 <= i < 64 && !(from <= i < to) ==> #[trigger] final(buf)[i] == old(buf)[i],
            forall|i: int| from <= i < to ==> #[trigger] final(buf)[i] == 0u8,
    {
        let mut j = from;
        while j < to
            invariant
                from <= j <= to <= 64,
                forall|i: int|
                    0 <= i < 64 && !(from <= i < j) ==> #[trigger] buf[i] == old(buf)[i],
                forall|i: int| from <= i < j ==> #[trigger] buf[i] == 0u8,
            decreases to - j,
        {
            buf[j] = 0;
            j = j + 1;
        }
    }

    /// The digest of `data` in one call.
    pub fn digest(data: &[u8]) -> (r: [u8; 16])
        requires
            data@.len() * 8 <= u64::MAX,
        ensures
            r@ == md5_digest(data@),
    {
        let mut m = Self::new();
        m.update(data);
        assert(m@ =~= data@);
        m.finish()
    }

    /// Store `v` little-endian in bytes 56..64 of `buf`.
    fn put_le64(buf: &mut [u8; 64], v: u64)
        ensures
            forall|i: int| 0 <= i < 56 ==> #[trigger] final(buf)[i] == old(buf)[i],
            forall|i: int| 56 <= i < 64 ==> #[trigger] final(buf)[i] == le_bytes64(v)[i - 56],
    {
        let mut k: usize = 0;
        while k < 8
            invariant
                k <= 8,
                forall|i: int| 0 <= i < 56 ==> #[trigger] buf[i] == old(buf)[i],
                forall|i: int| 56 <= i < 56 + k ==> #[trigger] buf[i] == le_bytes64(v)[i - 56],
            decreases 8 - k,
        {
            buf[56 + k] = ((v >> (8 * k) as u64) & 0xff) as u8;
            k = k + 1;
        }
    }

    /// Compress the 64-byte block `block[off .. off + 64]` into `state`.
    fn transform(state: &mut [u32; 4], block: &[u8], off: usize)
        requires
            off + 64 <= block.len(),
        ensures
            words_of(*final(state)) == md5_compress(
                words_of(*old(state)),
                block@.subrange(off as int, off + 64),
            ),
    {
        let ghost blk = block@.subrange(off as int, off + 64);
        let mut m: Vec<u32> = Vec::new();
        let mut j: usize = 0;
        while j < 16
            invariant
                j <= 16,
                off + 64 <= block.len(),
                m@.len() == j,
                blk == block@.subrange(off as int, off + 64),
                forall|i: int| 0 <= i < j ==> #[trigger] m@[i] == block_words(blk)[i],
            decreases 16 - j,
        {
            let p = off + 4 * j;
            let w = (block[p] as u32) | ((block[p + 1] as u32) << 8u32) | ((block[p + 2] as u32)
                << 16u32) | ((block[p + 3] as u32) << 24u32);
            m.push(w);
            j = j + 1;
        }
        assert(m@ =~= block_words(blk));
        let ghost init = words_of(*state);
        let mut a = state[0];
        let mut b = state[1];
        let mut c = state[2];
        let mut d = state[3];
        let mut i: usize = 0;
        while i < 64
            invariant
                i <= 64,
                m@ == block_words(blk),
                (a, b, c, d) == md5_steps(init, block_words(blk), i as nat),
            decreases 64 - i,
        {
            let f = if i < 16 {
                (b & c) | (!b & d)
            } else if i < 32 {
                (d & b) | (!d & c)
            } else if i < 48 {
                b ^ c ^ d
            } else {
                c ^ (b | !d)
            };
            let g = if i < 16 {
                i
            } else if i < 32 {
                (5 * i + 1) % 16
            } else if i < 48 {
                (3 * i + 5) % 16
            } else {
                (7 * i) % 16
            };
            let sum = a.wrapping_add(f).wrapping_add(MD5_K[i]).wrapping_add(m[g]);
            let s = MD5_S[i];
            let rot = (sum << s) | (sum >> (32 - s));
            let temp = d;
            d = c;
            c = b;
            b = b.wrapping_add(rot);
            a = temp;
            i = i + 1;
        }
        state[0] = state[0].wrapping_add(a);
        state[1] = state[1].wrapping_add(b);
        state[2] = state[2].wrapping_add(c);
        state[3] = state[3].wrapping_add(d);
    }
}


/// Feeding a message in two parts gives the digest of the whole message.
pub proof fn law_md5_incremental(x: Seq<u8>, y: Seq<u8>)
    ensures
        md5_digest(Seq::<u8>::empty() + x + y) == md5_digest(x + y),
{
    assert(Seq::<u8>::empty() + x + y =~= x + y);
}

} // verus!
