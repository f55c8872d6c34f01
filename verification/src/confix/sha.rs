//! SHA-256 (FIPS 180-4) and the content identifiers built on it.
use vstd::prelude::*;

verus! {

// ── the standard ────────────────────────────────────────────────────────────

/// `ROTR^n(x)` for `0 < n < 32`.
pub open spec fn rotr(x: u32, n: u32) -> u32 {
    (x >> n) | (x << ((32 - n) as u32))
}

/// Addition modulo `2^32`.
pub open spec fn wadd(a: u32, b: u32) -> u32 {
    ((a + b) % 0x1_0000_0000) as u32
}

pub open spec fn ch(e: u32, f: u32, g: u32) -> u32 {
    (e & f) ^ (!e & g)
}

pub open spec fn maj(a: u32, b: u32, c: u32) -> u32 {
    (a & b) ^ (a & c) ^ (b & c)
}

pub open spec fn big_sigma0(a: u32) -> u32 {
    rotr(a, 2) ^ rotr(a, 13) ^ rotr(a, 22)
}

pub open spec fn big_sigma1(e: u32) -> u32 {
    rotr(e, 6) ^ rotr(e, 11) ^ rotr(e, 25)
}

pub open spec fn small_sigma0(x: u32) -> u32 {
    rotr(x, 7) ^ rotr(x, 18) ^ (x >> 3)
}

pub open spec fn small_sigma1(x: u32) -> u32 {
    rotr(x, 17) ^ rotr(x, 19) ^ (x >> 10)
}

/// The round constants `K_0 .. K_63`.
pub open spec fn round_constants() -> Seq<u32> {
    seq![
        0x428a2f98u32, 0x71374491, 0xb5c0fbcf, 0xe9b5dba5, 0x3956c25b, 0x59f111f1, 0x923f82a4,
        0xab1c5ed5, 0xd807aa98, 0x12835b01, 0x243185be, 0x550c7dc3, 0x72be5d74, 0x80deb1fe,
        0x9bdc06a7, 0xc19bf174, 0xe49b69c1, 0xefbe4786, 0x0fc19dc6, 0x240ca1cc, 0x2de92c6f,
        0x4a7484aa, 0x5cb0a9dc, 0x76f988da, 0x983e5152, 0xa831c66d, 0xb00327c8, 0xbf597fc7,
        0xc6e00bf3, 0xd5a79147, 0x06ca6351, 0x14292967, 0x27b70a85, 0x2e1b2138, 0x4d2c6dfc,
        0x53380d13, 0x650a7354, 0x766a0abb, 0x81c2c92e, 0x92722c85, 0xa2bfe8a1, 0xa81a664b,
        0xc24b8b70, 0xc76c51a3, 0xd192e819, 0xd6990624, 0xf40e3585, 0x106aa070, 0x19a4c116,
        0x1e376c08, 0x2748774c, 0x34b0bcb5, 0x391c0cb3, 0x4ed8aa4a, 0x5b9cca4f, 0x682e6ff3,
        0x748f82ee, 0x78a5636f, 0x84c87814, 0x8cc70208, 0x90befffa, 0xa4506ceb, 0xbef9a3f7,
        0xc67178f2,
    ]
}

/// The initial hash value `H^(0)`.
pub open spec fn initial_hash() -> Seq<u32> {
    seq![
        0x6a09e667u32, 0xbb67ae85, 0x3c6ef372, 0xa54ff53a, 0x510e527f, 0x9b05688c, 0x1f83d9ab,
        0x5be0cd19,
    ]
}

/// The number of zero bytes that pad a message of `len` bytes after its `0x80` byte.
pub open spec fn zero_pad(len: nat) -> nat {
    ((56 + 64 - ((len + 1) % 64)) % 64) as nat
}

/// Byte `k` (0 = most significant) of a 64-bit value.
pub open spec fn u64_byte(v: u64, k: int) -> u8 {
    ((v >> ((56 - 8 * k) as u64)) & 0xff) as u8
}

/// The padded message: the message, `0x80`, zeros up to 56 mod 64, and the bit length
/// modulo `2^64` as eight big-endian bytes.
pub open spec fn padded(msg: Seq<u8>) -> Seq<u8> {
    let bits = ((msg.len() * 8) % 0x1_0000_0000_0000_0000) as u64;
    msg + seq![0x80u8] + Seq::new(zero_pad(msg.len()), |i: int| 0u8) + Seq::new(
        8,
        |k: int| u64_byte(bits, k),
    )
}

/// Word `j` of a block, big-endian.
pub open spec fn block_word(block: Seq<u8>, j: int) -> u32 {
    ((block[4 * j] as u32) << 24u32) | ((block[4 * j + 1] as u32) << 16u32) | ((block[4 * j + 2] as u32)
        << 8u32) | (block[4 * j + 3] as u32)
}

/// The first `t` words of the message schedule of a block.
pub open spec fn schedule(block: Seq<u8>, t: nat) -> Seq<u32>
    decreases t,
{
    if t == 0 {
        seq![]
    } else {
        let p = schedule(block, (t - 1) as nat);
        let i = t - 1;
        if i < 16 {
            p.push(block_word(block, i))
        } else {
            p.push(
                wadd(
                    wadd(wadd(p[i - 16], small_sigma0(p[i - 15])), p[i - 7]),
                    small_sigma1(p[i - 2]),
                ),
            )
        }
    }
}

/// One compression round on the working variables `a..h`.
pub open spec fn round(s: Seq<u32>, k: u32, w: u32) -> Seq<u32> {
    let t1 = wadd(wadd(wadd(wadd(s[7], big_sigma1(s[4])), ch(s[4], s[5], s[6])), k), w);
    let t2 = wadd(big_sigma0(s[0]), maj(s[0], s[1], s[2]));
    seq![wadd(t1, t2), s[0], s[1], s[2], wadd(s[3], t1), s[4], s[5], s[6]]
}

/// The working variables after the first `t` rounds.
pub open spec fn rounds(s: Seq<u32>, ws: Seq<u32>, t: nat) -> Seq<u32>
    decreases t,
{
    if t == 0 {
        s
    } else {
        round(rounds(s, ws, (t - 1) as nat), round_constants()[t - 1], ws[t - 1])
    }
}

/// The hash value after one more block.
pub open spec fn compress(h: Seq<u32>, block: Seq<u8>) -> Seq<u32> {
    let s = rounds(h, schedule(block, 64), 64);
    Seq::new(8, |i: int| wadd(h[i], s[i]))
}

/// The hash value after the first `n` blocks of a padded message.
pub open spec fn hash_blocks(p: Seq<u8>, n: nat) -> Seq<u32>
    decreases n,
{
    if n == 0 {
        initial_hash()
    } else {
        compress(hash_blocks(p, (n - 1) as nat), p.subrange(64 * (n - 1), (64 * n) as int))
    }
}

/// Byte `k` (0 = most significant) of a 32-bit word.
pub open spec fn u32_byte(w: u32, k: int) -> u8 {
    ((w >> ((24 - 8 * k) as u32)) & 0xff) as u8
}

/// The SHA-256 digest of `msg`.
pub open spec fn sha256(msg: Seq<u8>) -> Seq<u8> {
    let p = padded(msg);
    let h = hash_blocks(p, p.len() / 64);
    Seq::new(32, |i: int| u32_byte(h[i / 4], i % 4))
}

/// A lowercase hexadecimal digit.
pub open spec fn hex_digit(n: u8) -> char {
    if n < 10 {
        (48 + n) as char
    } else {
        (87 + n) as char
    }
}

/// Lowercase hexadecimal of a byte sequence, two digits per byte.
pub open spec fn hex(bytes: Seq<u8>) -> Seq<char>
    decreases bytes.len(),
{
    if bytes.len() == 0 {
        seq![]
    } else {
        hex(bytes.drop_last()) + seq![hex_digit(bytes.last() >> 4u8), hex_digit(bytes.last() & 0xfu8)]
    }
}

/// The content identifier of `bytes`: `sha256:` and the hexadecimal digest.
pub open spec fn content_id_of(bytes: Seq<u8>) -> Seq<char> {
    seq!['s', 'h', 'a', '2', '5', '6', ':'] + hex(sha256(bytes))
}

/// The hash value after the first `m` blocks of `p` depends only on those blocks.
proof fn lemma_hash_blocks_prefix(p: Seq<u8>, q: Seq<u8>, m: int)
    requires
        0 <= m,
        64 * m <= p.len(),
        64 * m <= q.len(),
        p.subrange(0, 64 * m) == q.subrange(0, 64 * m),
    ensures
        hash_blocks(p, m as nat) == hash_blocks(q, m as nat),
    decreases m,
{
    if m > 0 {
        let k = m - 1;
        assert(p.subrange(0, 64 * k) =~= p.subrange(0, 64 * m).subrange(0, 64 * k));
        assert(q.subrange(0, 64 * k) =~= q.subrange(0, 64 * m).subrange(0, 64 * k));
        lemma_hash_blocks_prefix(p, q, k);
        assert(p.subrange(64 * k, 64 * m) =~= p.subrange(0, 64 * m).subrange(64 * k, 64 * m));
        assert(q.subrange(64 * k, 64 * m) =~= q.subrange(0, 64 * m).subrange(64 * k, 64 * m));
    }
}

/// SHA-256 chains its blocks: the padded message is whole blocks, the first block is
/// compressed onto the initial hash value, and each later block onto the hash value that
/// the blocks before it leave as a message of their own; the digest is the final hash
/// value, big-endian.
pub proof fn lemma_sha256_chain(msg: Seq<u8>)
    ensures
        ({
            let p = padded(msg);
            let n = p.len() / 64;
            &&& p.len() % 64 == 0
            &&& n >= 1
            &&& hash_blocks(p, 1) == compress(initial_hash(), p.subrange(0, 64))
            &&& forall|m: int|
                2 <= m <= n ==> #[trigger] hash_blocks(p, m as nat) == compress(
                    hash_blocks(p.subrange(0, 64 * (m - 1)), (m - 1) as nat),
                    p.subrange(64 * (m - 1), 64 * m),
                )
            &&& sha256(msg) == Seq::new(32, |i: int| u32_byte(hash_blocks(p, n)[i / 4], i % 4))
        }),
{
    let p = padded(msg);
    lemma_zero_pad(msg.len());
    assert(p.len() == msg.len() + 1 + zero_pad(msg.len()) + 8);
    assert(hash_blocks(p, 0) == initial_hash());
    assert forall|m: int| 2 <= m <= p.len() / 64 implies #[trigger] hash_blocks(p, m as nat) == compress(
        hash_blocks(p.subrange(0, 64 * (m - 1)), (m - 1) as nat),
        p.subrange(64 * (m - 1), 64 * m),
    ) by {
        let k = m - 1;
        let pre = p.subrange(0, 64 * k);
        assert(pre.subrange(0, 64 * k) =~= p.subrange(0, 64 * k));
        lemma_hash_blocks_prefix(p, pre, k);
    }
}

// ── executable ──────────────────────────────────────────────────────────────

fn rotr_exec(x: u32, n: u32) -> (r: u32)
    requires
        0 < n < 32,
    ensures
        r == rotr(x, n),
{
    (x >> n) | (x << (32 - n))
}

fn wadd_exec(a: u32, b: u32) -> (r: u32)
    ensures
        r == wadd(a, b),
{
    ((a as u64 + b as u64) % 0x1_0000_0000) as u32
}

proof fn lemma_zero_pad(len: nat)
    ensures
        (len + 1 + zero_pad(len)) % 64 == 56,
        zero_pad(len) < 64,
{
    let r = (len + 1) % 64;
    assert(len + 1 == 64 * ((len + 1) / 64) + r);
    if r <= 56 {
        assert(zero_pad(len) == 56 - r);
    } else {
        assert(zero_pad(len) == 120 - r);
    }
}

/// The padded message (see `padded`).
fn pad_message(input: &[u8]) -> (msg: Vec<u8>)
    ensures
        msg@ == padded(input@),
{
    let n = input.len();
    let mut msg: Vec<u8> = Vec::new();
    let mut i: usize = 0;
    while i < n
        invariant
            n == input@.len(),
            i <= n,
            msg@ == input@.subrange(0, i as int),
        decreases n - i,
    {
        msg.push(input[i]);
        i = i + 1;
    }
    msg.push(0x80);
    let ghost z = zero_pad(n as nat);
    let mut k: usize = 0;
    while msg.len() % 64 != 56
        invariant
            n == input@.len(),
            z == zero_pad(n as nat),
            k <= z,
            msg@ == input@ + seq![0x80u8] + Seq::new(k as nat, |q: int| 0u8),
        decreases z - k,
    {
        assert(msg@.len() == n + 1 + k);
        proof {
            lemma_zero_pad(n as nat);
            if k == z {
                assert((msg@.len() as int) % 64 == 56);
                assert(false);
            }
        }
        msg.push(0);
        k = k + 1;
        assert(msg@ =~= input@ + seq![0x80u8] + Seq::new(k as nat, |q: int| 0u8));
    }
    proof {
        assert(msg@.len() == n + 1 + k);
        lemma_zero_pad(n as nat);
    }
    let bits: u64 = (n as u64).wrapping_mul(8);
    assert(bits == ((n * 8) % 0x1_0000_0000_0000_0000) as u64);
    let ghost base = msg@;
    let mut j: usize = 0;
    while j < 8
        invariant
            j <= 8,
            msg@ == base + Seq::new(j as nat, |q: int| u64_byte(bits, q)),
        decreases 8 - j,
    {
        msg.push(((bits >> (56 - 8 * j) as u64) & 0xff) as u8);
        j = j + 1;
        assert(msg@ =~= base + Seq::new(j as nat, |q: int| u64_byte(bits, q)));
    }
    msg
}

fn small_sigma0_exec(x: u32) -> (r: u32)
    ensures
        r == small_sigma0(x),
{
    rotr_exec(x, 7) ^ rotr_exec(x, 18) ^ (x >> 3)
}

fn small_sigma1_exec(x: u32) -> (r: u32)
    ensures
        r == small_sigma1(x),
{
    rotr_exec(x, 17) ^ rotr_exec(x, 19) ^ (x >> 10)
}

fn big_sigma0_exec(a: u32) -> (r: u32)
    ensures
        r == big_sigma0(a),
{
    rotr_exec(a, 2) ^ rotr_exec(a, 13) ^ rotr_exec(a, 22)
}

fn big_sigma1_exec(e: u32) -> (r: u32)
    ensures
        r == big_sigma1(e),
{
    rotr_exec(e, 6) ^ rotr_exec(e, 11) ^ rotr_exec(e, 25)
}

proof fn lemma_schedule_len(block: Seq<u8>, t: nat)
    ensures
        schedule(block, t).len() == t,
    decreases t,
{
    if t > 0 {
        lemma_schedule_len(block, (t - 1) as nat);
    }
}

/// The message schedule of the block at `base` (see `schedule`).
fn schedule_exec(msg: &Vec<u8>, base: usize) -> (w: Vec<u32>)
    requires
        base + 64 <= msg@.len(),
    ensures
        w@ == schedule(msg@.subrange(base as int, base + 64), 64),
{
    let ghost block = msg@.subrange(base as int, base + 64);
    let n = msg.len();
    let mut w: Vec<u32> = Vec::new();
    let mut t: usize = 0;
    while t < 64
        invariant
            t <= 64,
            n == msg@.len(),
            base + 64 <= msg@.len(),
            block == msg@.subrange(base as int, base + 64),
            w@ == schedule(block, t as nat),
        decreases 64 - t,
    {
        proof {
            lemma_schedule_len(block, t as nat);
        }
        if t < 16 {
            let b0 = msg[base + 4 * t] as u32;
            let b1 = msg[base + 4 * t + 1] as u32;
            let b2 = msg[base + 4 * t + 2] as u32;
            let b3 = msg[base + 4 * t + 3] as u32;
            w.push((b0 << 24u32) | (b1 << 16u32) | (b2 << 8u32) | b3);
        } else {
            let s0 = small_sigma0_exec(w[t - 15]);
            let s1 = small_sigma1_exec(w[t - 2]);
            w.push(wadd_exec(wadd_exec(wadd_exec(w[t - 16], s0), w[t - 7]), s1));
        }
        t = t + 1;
    }
    w
}

/// The round constants as a vector.
fn round_constants_exec() -> (k: Vec<u32>)
    ensures
        k@ == round_constants(),
{
    let k: Vec<u32> = vec![
        0x428a2f98u32, 0x71374491, 0xb5c0fbcf, 0xe9b5dba5, 0x3956c25b, 0x59f111f1, 0x923f82a4,
        0xab1c5ed5, 0xd807aa98, 0x12835b01, 0x243185be, 0x550c7dc3, 0x72be5d74, 0x80deb1fe,
        0x9bdc06a7, 0xc19bf174, 0xe49b69c1, 0xefbe4786, 0x0fc19dc6, 0x240ca1cc, 0x2de92c6f,
        0x4a7484aa, 0x5cb0a9dc, 0x76f988da, 0x983e5152, 0xa831c66d, 0xb00327c8, 0xbf597fc7,
        0xc6e00bf3, 0xd5a79147, 0x06ca6351, 0x14292967, 0x27b70a85, 0x2e1b2138, 0x4d2c6dfc,
        0x53380d13, 0x650a7354, 0x766a0abb, 0x81c2c92e, 0x92722c85, 0xa2bfe8a1, 0xa81a664b,
        0xc24b8b70, 0xc76c51a3, 0xd192e819, 0xd6990624, 0xf40e3585, 0x106aa070, 0x19a4c116,
        0x1e376c08, 0x2748774c, 0x34b0bcb5, 0x391c0cb3, 0x4ed8aa4a, 0x5b9cca4f, 0x682e6ff3,
        0x748f82ee, 0x78a5636f, 0x84c87814, 0x8cc70208, 0x90befffa, 0xa4506ceb, 0xbef9a3f7,
        0xc67178f2,
    ];
    assert(k@ =~= round_constants());
    k
}

/// The hash value after the block at `base` (see `compress`).
fn compress_exec(h: &Vec<u32>, msg: &Vec<u8>, base: usize, k: &Vec<u32>) -> (r: Vec<u32>)
    requires
        h@.len() == 8,
        base + 64 <= msg@.len(),
        k@ == round_constants(),
    ensures
        r@ == compress(h@, msg@.subrange(base as int, base + 64)),
{
    let ghost block = msg@.subrange(base as int, base + 64);
    let w = schedule_exec(msg, base);
    let ghost ws = w@;
    proof {
        lemma_schedule_len(block, 64);
    }
    let mut a = h[0];
    let mut b = h[1];
    let mut c = h[2];
    let mut d = h[3];
    let mut e = h[4];
    let mut f = h[5];
    let mut g = h[6];
    let mut hh = h[7];
    assert(seq![a, b, c, d, e, f, g, hh] =~= rounds(h@, ws, 0));
    let mut t: usize = 0;
    while t < 64
        invariant
            t <= 64,
            w@ == ws,
            ws.len() == 64,
            k@ == round_constants(),
            seq![a, b, c, d, e, f, g, hh] == rounds(h@, ws, t as nat),
        decreases 64 - t,
    {
        let s1 = big_sigma1_exec(e);
        let chv = (e & f) ^ (!e & g);
        let temp1 = wadd_exec(wadd_exec(wadd_exec(wadd_exec(hh, s1), chv), k[t]), w[t]);
        let s0 = big_sigma0_exec(a);
        let mj = (a & b) ^ (a & c) ^ (b & c);
        let temp2 = wadd_exec(s0, mj);
        let ghost prev = seq![a, b, c, d, e, f, g, hh];
        hh = g;
        g = f;
        f = e;
        e = wadd_exec(d, temp1);
        d = c;
        c = b;
        b = a;
        a = wadd_exec(temp1, temp2);
        t = t + 1;
        proof {
            assert(seq![a, b, c, d, e, f, g, hh] =~= round(prev, round_constants()[t - 1], ws[t - 1]));
        }
    }
    let ghost s = rounds(h@, ws, 64);
    let mut r: Vec<u32> = Vec::new();
    r.push(wadd_exec(h[0], a));
    r.push(wadd_exec(h[1], b));
    r.push(wadd_exec(h[2], c));
    r.push(wadd_exec(h[3], d));
    r.push(wadd_exec(h[4], e));
    r.push(wadd_exec(h[5], f));
    r.push(wadd_exec(h[6], g));
    r.push(wadd_exec(h[7], hh));
    assert(r@ =~= compress(h@, block));
    r
}

/// The SHA-256 digest of `input`.
pub fn sha256_digest(input: &[u8]) -> (d: Vec<u8>)
    ensures
        d@ == sha256(input@),
{
    let msg = pad_message(input);
    let ghost p = msg@;
    proof {
        lemma_zero_pad(input@.len());
        assert(p.len() == input@.len() + 1 + zero_pad(input@.len()) + 8);
    }
    let n = msg.len();
    let nblocks = n / 64;
    let k = round_constants_exec();
    let mut h: Vec<u32> = vec![
        0x6a09e667u32, 0xbb67ae85, 0x3c6ef372, 0xa54ff53a, 0x510e527f, 0x9b05688c, 0x1f83d9ab,
        0x5be0cd19,
    ];
    assert(h@ =~= initial_hash());
    let mut i: usize = 0;
    while i < nblocks
        invariant
            i <= nblocks,
            nblocks == n / 64,
            n == msg@.len(),
            msg@ == p,
            k@ == round_constants(),
            h@.len() == 8,
            h@ == hash_blocks(p, i as nat),
        decreases nblocks - i,
    {
        assert(64 * i + 64 <= n);
        let next = compress_exec(&h, &msg, 64 * i, &k);
        h = next;
        i = i + 1;
        proof {
            assert(p.subrange(64 * (i - 1), (64 * i) as int) == msg@.subrange(64 * (i - 1), 64 * (i - 1) + 64));
        }
    }
    let mut d: Vec<u8> = Vec::new();
    let mut j: usize = 0;
    while j < 32
        invariant
            j <= 32,
            h@.len() == 8,
            d@ == Seq::new(j as nat, |q: int| u32_byte(h@[q / 4], q % 4)),
        decreases 32 - j,
    {
        let word = h[j / 4];
        d.push(((word >> (24 - 8 * (j % 4)) as u32) & 0xff) as u8);
        j = j + 1;
        assert(d@ =~= Seq::new(j as nat, |q: int| u32_byte(h@[q / 4], q % 4)));
    }
    assert(d@ =~= sha256(input@));
    d
}

pub(crate) fn hex_digit_exec(n: u8) -> (c: char)
    requires
        n < 16,
    ensures
        c == hex_digit(n),
{
    if n < 10 {
        (48 + n) as char
    } else {
        (87 + n) as char
    }
}

/// The content identifier of `bytes`: `sha256:` followed by the 64 lowercase
/// hexadecimal digits of their SHA-256 digest.
pub fn content_id(bytes: &[u8]) -> (id: String)
    ensures
        id@ == content_id_of(bytes@),
{
    let digest = sha256_digest(bytes);
    let mut out = String::new();
    out.push('s');
    out.push('h');
    out.push('a');
    out.push('2');
    out.push('5');
    out.push('6');
    out.push(':');
    let ghost prefix = seq!['s', 'h', 'a', '2', '5', '6', ':'];
    assert(out@ =~= prefix);
    let mut i: usize = 0;
    while i < digest.len()
        invariant
            i <= digest@.len(),
            out@ == prefix + hex(digest@.subrange(0, i as int)),
        decreases digest@.len() - i,
    {
        let b = digest[i];
        assert(b >> 4u8 < 16) by (bit_vector);
        assert(b & 0xfu8 < 16) by (bit_vector);
        out.push(hex_digit_exec(b >> 4));
        out.push(hex_digit_exec(b & 0xf));
        i = i + 1;
        proof {
            let s = digest@.subrange(0, i as int);
            assert(s.drop_last() =~= digest@.subrange(0, i - 1));
            assert(out@ =~= prefix + hex(s));
        }
    }
    assert(digest@.subrange(0, digest@.len() as int) =~= digest@);
    out
}

} // verus!
