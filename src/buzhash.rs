//! Buzhash: the table, the rotation, and the hash of a byte window.
//!
//! The hash of a sequence `s` is `XOR_i rotl(table(s[i]), |s| - 1 - i)`,
//! written here in its recursive form `hash(s + [b]) == rotl(hash(s), 1) ^ table(b)`.
use vstd::prelude::*;

verus! {

/// Size of the sliding window over which the rolling hash is computed.
pub const WINDOW_SIZE: usize = 48;

/// One pseudo-random 32-bit value for each byte value.
pub const BUZHASH_TABLE: [u32; 256] = [
    0x458be752, 0xc10748cc, 0xfbbcdbb8, 0x6ded5b68,
    0xb10a82b5, 0x20d75648, 0xdfc5665f, 0xa8428801,
    0x7ebf5191, 0x841135c7, 0x65cc53b3, 0x280a597c,
    0x16f60255, 0xc78cbc3e, 0x294415f5, 0xb938d494,
    0xec85c4e6, 0xb7d33edc, 0xe549b544, 0xfdeda5aa,
    0x882bf287, 0x3116737c, 0x05569956, 0xe8cc1f68,
    0x0806ac5e, 0x22a14443, 0x15297e10, 0x50d090e7,
    0x4ba60f6f, 0xefd9f1a7, 0x5c5c885c, 0x82482f93,
    0x9bfd7c64, 0x0b3e7276, 0xf2688e77, 0x8fad8abc,
    0xb0509568, 0xf1ada29f, 0xa53efdfe, 0xcb2b1d00,
    0xf2a9e986, 0x6463432b, 0x95094051, 0x5a223ad2,
    0x9be8401b, 0x61e579cb, 0x1a556a14, 0x5840fdc2,
    0x9261ddf6, 0xcde002bb, 0x52432bb0, 0xbf17373e,
    0x7b7c222f, 0x2955ed16, 0x9f10ca59, 0xe840c4c9,
    0xccabd806, 0x14543f34, 0x1462417a, 0x0d4a1f9c,
    0x087ed925, 0xd7f8f24c, 0x7338c425, 0xcf86c8f5,
    0xb19165cd, 0x9891c393, 0x325384ac, 0x0308459d,
    0x86141d7e, 0xc922116a, 0xe2ffa6b6, 0x53f52aed,
    0x2cd86197, 0xf5b9f498, 0xbf319c8f, 0xe0411fae,
    0x977eb18c, 0xd8770976, 0x9833466a, 0xc674df7f,
    0x8c297d45, 0x8ca48d26, 0xc49ed8e2, 0x7344f874,
    0x556f79c7, 0x6b25eaed, 0xa03e2b42, 0xf68f66a4,
    0x8e8b09a2, 0xf2e0e62a, 0x0d3a9806, 0x9729e493,
    0x8c72b0fc, 0x160b94f6, 0x450e4d3d, 0x7a320e85,
    0xbef8f0e1, 0x21d73653, 0x4e3d977a, 0x1e7b3929,
    0x1cc6c719, 0xbe478d53, 0x8d752809, 0xe6d8c2c6,
    0x275f0892, 0xc8acc273, 0x4cc21580, 0xecc4a617,
    0xf5f7be70, 0xe795248a, 0x375a2fe9, 0x425570b6,
    0x8898dcf8, 0xdc2d97c4, 0x0106114b, 0x364dc22f,
    0x1e0cad1f, 0xbe63803c, 0x5f69fac2, 0x4d5afa6f,
    0x1bc0dfb5, 0xfb273589, 0x0ea47f7b, 0x3c1c2b50,
    0x21b2a932, 0x6b1223fd, 0x2fe706a8, 0xf9bd6ce2,
    0xa268e64e, 0xe987f486, 0x3eacf563, 0x1ca2018c,
    0x65e18228, 0x2207360a, 0x57cf1715, 0x34c37d2b,
    0x1f8f3cde, 0x93b657cf, 0x31a019fd, 0xe69eb729,
    0x8bca7b9b, 0x4c9d5bed, 0x277ebeaf, 0xe0d8f8ae,
    0xd150821c, 0x31381871, 0xafc3f1b0, 0x927db328,
    0xe95effac, 0x305a47bd, 0x426ba35b, 0x1233af3f,
    0x686a5b83, 0x50e072e5, 0xd9d3bb2a, 0x8befc475,
    0x487f0de6, 0xc88dff89, 0xbd664d5e, 0x971b5d18,
    0x63b14847, 0xd7d3c1ce, 0x7f583cf3, 0x72cbcb09,
    0xc0d0a81c, 0x7fa3429b, 0xe9158a1b, 0x225ea19a,
    0xd8ca9ea3, 0xc763b282, 0xbb0c6341, 0x020b8293,
    0xd4cd299d, 0x58cfa7f8, 0x91b4ee53, 0x37e4d140,
    0x95ec764c, 0x30f76b06, 0x5ee68d24, 0x679c8661,
    0xa41979c2, 0xf2b61284, 0x4fac1475, 0x0adb49f9,
    0x19727a23, 0x15a7e374, 0xc43a18d5, 0x3fb1aa73,
    0x342fc615, 0x924c0793, 0xbee2d7f0, 0x8a279de9,
    0x4aa2d70c, 0xe24dd37f, 0xbe862c0b, 0x177c22c2,
    0x5388e5ee, 0xcd8a7510, 0xf901b4fd, 0xdbc13dbc,
    0x6c0bae5b, 0x64efe8c7, 0x48b02079, 0x80331a49,
    0xca3d8ae6, 0xf3546190, 0xfed7108b, 0xc49b941b,
    0x32baf4a9, 0xeb833a4a, 0x88a3f1a5, 0x3a91ce0a,
    0x3cc27da1, 0x7112e684, 0x4a3096b1, 0x3794574c,
    0xa3c8b6f3, 0x1d213941, 0x6e0a2e00, 0x233479f1,
    0x0f4cd82f, 0x6093edd2, 0x5d7d209e, 0x464fe319,
    0xd4dcac9e, 0x0db845cb, 0xfb5e4bc3, 0xe0256ce1,
    0x09fb4ed1, 0x0914be1e, 0xa5bdb2c3, 0xc6eb57bb,
    0x30320350, 0x3f397e91, 0xa67791bc, 0x86bc0e2c,
    0xefa0a7e2, 0xe9ff7543, 0xe733612c, 0xd185897b,
    0x329e5388, 0x91dd236b, 0x2ecb0d93, 0xf4d82a3d,
    0x35b5c03f, 0xe4e606f0, 0x05b21843, 0x37b45964,
    0x5eff22f4, 0x6027f4cc, 0x77178b3c, 0xae507131,
    0x7bf7cabc, 0xf9c18d66, 0x593ade65, 0xd95ddf11,
];

/// Table entry of byte `b`.
pub open spec fn table(b: u8) -> u32 {
    BUZHASH_TABLE@[b as int]
}

/// `x` rotated left by `n` bits (modulo the width of 32).
pub open spec fn rotl(x: u32, n: u32) -> u32 {
    let k = n % 32;
    if k == 0 {
        x
    } else {
        (x << k) | (x >> (32 - k) as u32)
    }
}

/// Buzhash of a byte sequence.
pub open spec fn hash(s: Seq<u8>) -> u32
    decreases s.len(),
{
    if s.len() == 0 {
        0
    } else {
        rotl(hash(s.drop_last()), 1) ^ table(s.last())
    }
}

/// The fold that seeds the hash from a full window: byte `i` of a window of
/// length `L` enters rotated by `L - (i + 1)`; this is the fold of the first `i` bytes.
pub open spec fn seed_fold(w: Seq<u8>, i: int) -> u32
    decreases i,
{
    if i <= 0 {
        0
    } else {
        seed_fold(w, i - 1) ^ rotl(table(w[i - 1]), (w.len() - i) as u32)
    }
}

pub fn entry(b: u8) -> (r: u32)
    ensures
        r == table(b),
{
    BUZHASH_TABLE[b as usize]
}

pub fn rotate_left(x: u32, n: u32) -> (r: u32)
    ensures
        r == rotl(x, n),
{
    let k = n % 32;
    if k == 0 {
        x
    } else {
        (x << k) | (x >> (32 - k))
    }
}

proof fn lemma_rotl_xor(a: u32, b: u32, n: u32)
    ensures
        rotl(a ^ b, n) == rotl(a, n) ^ rotl(b, n),
{
    assert(rotl(a ^ b, n) == rotl(a, n) ^ rotl(b, n)) by (bit_vector);
}

proof fn lemma_rotl_succ(x: u32, a: u32)
    requires
        a < 512,
    ensures
        rotl(rotl(x, a), 1) == rotl(x, (a + 1) as u32),
{
    assert(rotl(rotl(x, a), 1) == rotl(x, (a + 1) as u32)) by (bit_vector)
        requires
            a < 512,
    ;
}

proof fn lemma_rotl_add(x: u32, a: u32, b: u32)
    requires
        a < 256,
        b < 256,
    ensures
        rotl(rotl(x, a), b) == rotl(x, (a + b) as u32),
    decreases b,
{
    if b == 0 {
        lemma_rotl_zero_amount(rotl(x, a));
    } else {
        let b1 = (b - 1) as u32;
        lemma_rotl_add(x, a, b1);
        lemma_rotl_succ(rotl(x, a), b1);
        lemma_rotl_succ(x, (a + b1) as u32);
    }
}

proof fn lemma_rotl_zero(n: u32)
    ensures
        rotl(0, n) == 0,
{
    assert(rotl(0, n) == 0) by (bit_vector);
}

/// The seeding fold over a whole window is its hash.
pub proof fn lemma_seed_fold_is_hash(w: Seq<u8>)
    requires
        w.len() < 256,
    ensures
        seed_fold(w, w.len() as int) == hash(w),
{
    lemma_seed_fold_prefix(w, w.len() as int);
    assert(w.subrange(0, w.len() as int) =~= w);
    lemma_rotl_zero_amount(hash(w));
}

proof fn lemma_rotl_zero_amount(x: u32)
    ensures
        rotl(x, 0) == x,
{
}

proof fn lemma_seed_fold_prefix(w: Seq<u8>, i: int)
    requires
        w.len() < 256,
        0 <= i <= w.len(),
    ensures
        seed_fold(w, i) == rotl(hash(w.subrange(0, i)), (w.len() - i) as u32),
    decreases i,
{
    let m = (w.len() - i) as u32;
    if i == 0 {
        assert(w.subrange(0, 0).len() == 0);
        lemma_rotl_zero(m);
    } else {
        lemma_seed_fold_prefix(w, i - 1);
        let p = w.subrange(0, i - 1);
        let q = w.subrange(0, i);
        assert(q.drop_last() =~= p);
        assert(q.last() == w[i - 1]);
        let hp = hash(p);
        let t = table(w[i - 1]);
        // hash(q) == rotl(hp, 1) ^ t
        lemma_rotl_xor(rotl(hp, 1), t, m);
        lemma_rotl_add(hp, 1, m);
    }
}

/// Hash of a sequence split after its first byte.
proof fn lemma_hash_first(a: u8, r: Seq<u8>)
    requires
        r.len() < 256,
    ensures
        hash(seq![a] + r) == rotl(table(a), r.len() as u32) ^ hash(r),
    decreases r.len(),
{
    let s = seq![a] + r;
    if r.len() == 0 {
        assert(s.drop_last() =~= Seq::<u8>::empty());
        assert(hash(s.drop_last()) == 0);
        assert(s.last() == a);
        lemma_rotl_zero(1);
        let ta = table(a);
        assert(0u32 ^ ta == ta ^ 0u32) by (bit_vector);
        lemma_rotl_zero_amount(ta);

    } else {
        let r1 = r.drop_last();
        let e = r.last();
        lemma_hash_first(a, r1);
        assert(s.drop_last() =~= seq![a] + r1);
        assert(s.last() == e);
        let x = rotl(table(a), r1.len() as u32);
        let y = hash(r1);
        let te = table(e);
        lemma_rotl_xor(x, y, 1);
        lemma_rotl_add(table(a), r1.len() as u32, 1);
        let rx = rotl(x, 1);
        let ry = rotl(y, 1);
        assert((rx ^ ry) ^ te == rx ^ (ry ^ te)) by (bit_vector);
    }
}

/// Rolling update: the window loses its first byte and gains `e` at its end.
pub proof fn lemma_roll(w: Seq<u8>, e: u8)
    requires
        w.len() == WINDOW_SIZE,
    ensures
        hash(w.drop_first().push(e)) == (rotl(hash(w), 1) ^ rotl(table(w[0]), WINDOW_SIZE as u32))
            ^ table(e),
{
    let a = w[0];
    let r = w.drop_first();
    assert(w =~= seq![a] + r);
    lemma_hash_first(a, r);
    let n = r.push(e);
    assert(n.drop_last() =~= r);
    assert(n.last() == e);
    let ta = rotl(table(a), 47);
    let hr = hash(r);
    lemma_rotl_xor(ta, hr, 1);
    lemma_rotl_add(table(a), 47, 1);
    let p = rotl(ta, 1);
    let q = rotl(hr, 1);
    let te = table(e);
    assert(((p ^ q) ^ p) ^ te == q ^ te) by (bit_vector);
}

} // verus!
