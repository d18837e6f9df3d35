//! Four-bit fields of a 128-bit word, and the facts about them that the packed
//! types rely on.

use vstd::prelude::*;

verus! {

/// The `i`-th group of four bits of `w`, counted from the least significant end.
pub open spec fn nibble(w: u128, i: int) -> u8 {
    ((w >> ((4 * i) as u128)) & 0xf) as u8
}

/// `r` with bit `x` forced to `value`.
pub open spec fn with_bit(r: u8, x: int, value: bool) -> u8 {
    if value {
        r | (1u8 << (x as u8))
    } else {
        r & !(1u8 << (x as u8))
    }
}

/// Whether bit `x` of `r` is set.
pub open spec fn bit_of(r: u8, x: int) -> bool {
    (r >> (x as u8)) & 1 == 1
}

/// Number of set bits among the low four bits of `r`.
pub open spec fn ones4(r: u8) -> nat {
    (if bit_of(r, 0) { 1nat } else { 0 }) + (if bit_of(r, 1) { 1nat } else { 0 })
        + (if bit_of(r, 2) { 1nat } else { 0 }) + (if bit_of(r, 3) { 1nat } else { 0 })
}

pub proof fn lemma_nibble_bound(w: u128, i: int)
    requires
        0 <= i < 32,
    ensures
        nibble(w, i) < 16,
        nibble(w, i) as u128 == (w >> ((4 * i) as u128)) & 0xf,
{
    let s = (4 * i) as u128;
    assert((w >> s) & 0xf < 16) by (bit_vector);
}

pub proof fn lemma_nibble_zero(i: int)
    requires
        0 <= i < 32,
    ensures
        nibble(0, i) == 0,
{
    let s = (4 * i) as u128;
    assert((0u128 >> s) & 0xf == 0) by (bit_vector);
}

/// Writing `v` over field `i` changes that field and no other.
pub proof fn lemma_nibble_write(w: u128, i: int, v: u8, j: int)
    requires
        0 <= i < 32,
        0 <= j < 32,
        v < 16,
    ensures
        nibble((w & !(0xfu128 << ((4 * i) as u128))) | ((v as u128) << ((4 * i) as u128)), j) == (if j
            == i {
            v
        } else {
            nibble(w, j)
        }),
{
    let s = (4 * i) as u128;
    let t = (4 * j) as u128;
    let v2 = v as u128;
    let w2 = (w & !(0xfu128 << s)) | (v2 << s);
    assert(((w2 >> t) & 0xf) == (if t == s {
        v2
    } else {
        (w >> t) & 0xf
    })) by (bit_vector)
        requires
            w2 == (w & !(0xfu128 << s)) | (v2 << s),
            s < 128,
            t < 128,
            s % 4 == 0,
            t % 4 == 0,
            v2 < 16,
    ;
}

/// Or-ing `v` into an empty field `i` writes it there.
pub proof fn lemma_nibble_fill(w: u128, i: int, v: u8, j: int)
    requires
        0 <= i < 32,
        0 <= j < 32,
        v < 16,
        nibble(w, i) == 0,
    ensures
        nibble(w | ((v as u128) << ((4 * i) as u128)), j) == (if j == i {
            v
        } else {
            nibble(w, j)
        }),
{
    let s = (4 * i) as u128;
    let t = (4 * j) as u128;
    let v2 = v as u128;
    let w2 = w | (v2 << s);
    lemma_nibble_bound(w, i);
    assert(((w2 >> t) & 0xf) == (if t == s {
        v2
    } else {
        (w >> t) & 0xf
    })) by (bit_vector)
        requires
            w2 == w | (v2 << s),
            (w >> s) & 0xf == 0,
            s < 128,
            t < 128,
            s % 4 == 0,
            t % 4 == 0,
            v2 < 16,
    ;
}

/// A single bit of the word is the matching bit of its field.
pub proof fn lemma_nibble_bit(w: u128, i: int, x: int)
    requires
        0 <= i < 32,
        0 <= x < 4,
    ensures
        ((w >> ((4 * i + x) as u128)) & 1 != 0) == bit_of(nibble(w, i), x),
{
    let s = (4 * i) as u128;
    let k = (4 * i + x) as u128;
    let xx = x as u128;
    let n = (w >> s) & 0xf;
    lemma_nibble_bound(w, i);
    assert(n < 16);
    assert(((w >> k) & 1 != 0) == ((n >> xx) & 1 == 1)) by (bit_vector)
        requires
            n == (w >> s) & 0xf,
            k == s + xx,
            xx < 4,
            s < 128,
            s % 4 == 0,
    ;
    let r = n as u8;
    let x8 = x as u8;
    assert(((n >> xx) & 1 == 1) == ((r >> x8) & 1 == 1)) by (bit_vector)
        requires
            n < 16,
            r == n as u8,
            x8 == xx as u8,
            xx < 4,
    ;
}

/// A word is determined by its thirty-two fields.
pub proof fn lemma_nibbles_determine(a: u128, b: u128)
    requires
        forall|i: int| 0 <= i < 32 ==> nibble(a, i) == nibble(b, i),
    ensures
        a == b,
{
    lemma_nibble_bound(a, 0);
    lemma_nibble_bound(b, 0);
    assert(nibble(a, 0) == nibble(b, 0));
    lemma_nibble_bound(a, 1);
    lemma_nibble_bound(b, 1);
    assert(nibble(a, 1) == nibble(b, 1));
    lemma_nibble_bound(a, 2);
    lemma_nibble_bound(b, 2);
    assert(nibble(a, 2) == nibble(b, 2));
    lemma_nibble_bound(a, 3);
    lemma_nibble_bound(b, 3);
    assert(nibble(a, 3) == nibble(b, 3));
    lemma_nibble_bound(a, 4);
    lemma_nibble_bound(b, 4);
    assert(nibble(a, 4) == nibble(b, 4));
    lemma_nibble_bound(a, 5);
    lemma_nibble_bound(b, 5);
    assert(nibble(a, 5) == nibble(b, 5));
    lemma_nibble_bound(a, 6);
    lemma_nibble_bound(b, 6);
    assert(nibble(a, 6) == nibble(b, 6));
    lemma_nibble_bound(a, 7);
    lemma_nibble_bound(b, 7);
    assert(nibble(a, 7) == nibble(b, 7));
    lemma_nibble_bound(a, 8);
    lemma_nibble_bound(b, 8);
    assert(nibble(a, 8) == nibble(b, 8));
    lemma_nibble_bound(a, 9);
    lemma_nibble_bound(b, 9);
    assert(nibble(a, 9) == nibble(b, 9));
    lemma_nibble_bound(a, 10);
    lemma_nibble_bound(b, 10);
    assert(nibble(a, 10) == nibble(b, 10));
    lemma_nibble_bound(a, 11);
    lemma_nibble_bound(b, 11);
    assert(nibble(a, 11) == nibble(b, 11));
    lemma_nibble_bound(a, 12);
    lemma_nibble_bound(b, 12);
    assert(nibble(a, 12) == nibble(b, 12));
    lemma_nibble_bound(a, 13);
    lemma_nibble_bound(b, 13);
    assert(nibble(a, 13) == nibble(b, 13));
    lemma_nibble_bound(a, 14);
    lemma_nibble_bound(b, 14);
    assert(nibble(a, 14) == nibble(b, 14));
    lemma_nibble_bound(a, 15);
    lemma_nibble_bound(b, 15);
    assert(nibble(a, 15) == nibble(b, 15));
    lemma_nibble_bound(a, 16);
    lemma_nibble_bound(b, 16);
    assert(nibble(a, 16) == nibble(b, 16));
    lemma_nibble_bound(a, 17);
    lemma_nibble_bound(b, 17);
    assert(nibble(a, 17) == nibble(b, 17));
    lemma_nibble_bound(a, 18);
    lemma_nibble_bound(b, 18);
    assert(nibble(a, 18) == nibble(b, 18));
    lemma_nibble_bound(a, 19);
    lemma_nibble_bound(b, 19);
    assert(nibble(a, 19) == nibble(b, 19));
    lemma_nibble_bound(a, 20);
    lemma_nibble_bound(b, 20);
    assert(nibble(a, 20) == nibble(b, 20));
    lemma_nibble_bound(a, 21);
    lemma_nibble_bound(b, 21);
    assert(nibble(a, 21) == nibble(b, 21));
    lemma_nibble_bound(a, 22);
    lemma_nibble_bound(b, 22);
    assert(nibble(a, 22) == nibble(b, 22));
    lemma_nibble_bound(a, 23);
    lemma_nibble_bound(b, 23);
    assert(nibble(a, 23) == nibble(b, 23));
    lemma_nibble_bound(a, 24);
    lemma_nibble_bound(b, 24);
    assert(nibble(a, 24) == nibble(b, 24));
    lemma_nibble_bound(a, 25);
    lemma_nibble_bound(b, 25);
    assert(nibble(a, 25) == nibble(b, 25));
    lemma_nibble_bound(a, 26);
    lemma_nibble_bound(b, 26);
    assert(nibble(a, 26) == nibble(b, 26));
    lemma_nibble_bound(a, 27);
    lemma_nibble_bound(b, 27);
    assert(nibble(a, 27) == nibble(b, 27));
    lemma_nibble_bound(a, 28);
    lemma_nibble_bound(b, 28);
    assert(nibble(a, 28) == nibble(b, 28));
    lemma_nibble_bound(a, 29);
    lemma_nibble_bound(b, 29);
    assert(nibble(a, 29) == nibble(b, 29));
    lemma_nibble_bound(a, 30);
    lemma_nibble_bound(b, 30);
    assert(nibble(a, 30) == nibble(b, 30));
    lemma_nibble_bound(a, 31);
    lemma_nibble_bound(b, 31);
    assert(nibble(a, 31) == nibble(b, 31));
    assert(a == b) by (bit_vector)
        requires
            (a >> 0u128) & 0xf == (b >> 0u128) & 0xf,
            (a >> 4u128) & 0xf == (b >> 4u128) & 0xf,
            (a >> 8u128) & 0xf == (b >> 8u128) & 0xf,
            (a >> 12u128) & 0xf == (b >> 12u128) & 0xf,
            (a >> 16u128) & 0xf == (b >> 16u128) & 0xf,
            (a >> 20u128) & 0xf == (b >> 20u128) & 0xf,
            (a >> 24u128) & 0xf == (b >> 24u128) & 0xf,
            (a >> 28u128) & 0xf == (b >> 28u128) & 0xf,
            (a >> 32u128) & 0xf == (b >> 32u128) & 0xf,
            (a >> 36u128) & 0xf == (b >> 36u128) & 0xf,
            (a >> 40u128) & 0xf == (b >> 40u128) & 0xf,
            (a >> 44u128) & 0xf == (b >> 44u128) & 0xf,
            (a >> 48u128) & 0xf == (b >> 48u128) & 0xf,
            (a >> 52u128) & 0xf == (b >> 52u128) & 0xf,
            (a >> 56u128) & 0xf == (b >> 56u128) & 0xf,
            (a >> 60u128) & 0xf == (b >> 60u128) & 0xf,
            (a >> 64u128) & 0xf == (b >> 64u128) & 0xf,
            (a >> 68u128) & 0xf == (b >> 68u128) & 0xf,
            (a >> 72u128) & 0xf == (b >> 72u128) & 0xf,
            (a >> 76u128) & 0xf == (b >> 76u128) & 0xf,
            (a >> 80u128) & 0xf == (b >> 80u128) & 0xf,
            (a >> 84u128) & 0xf == (b >> 84u128) & 0xf,
            (a >> 88u128) & 0xf == (b >> 88u128) & 0xf,
            (a >> 92u128) & 0xf == (b >> 92u128) & 0xf,
            (a >> 96u128) & 0xf == (b >> 96u128) & 0xf,
            (a >> 100u128) & 0xf == (b >> 100u128) & 0xf,
            (a >> 104u128) & 0xf == (b >> 104u128) & 0xf,
            (a >> 108u128) & 0xf == (b >> 108u128) & 0xf,
            (a >> 112u128) & 0xf == (b >> 112u128) & 0xf,
            (a >> 116u128) & 0xf == (b >> 116u128) & 0xf,
            (a >> 120u128) & 0xf == (b >> 120u128) & 0xf,
            (a >> 124u128) & 0xf == (b >> 124u128) & 0xf,
    ;
}

/// Reading a bit after forcing one.
pub proof fn lemma_with_bit(r: u8, x: int, value: bool, z: int)
    requires
        r < 16,
        0 <= x < 4,
        0 <= z < 4,
    ensures
        with_bit(r, x, value) < 16,
        bit_of(with_bit(r, x, value), z) == (if z == x {
            value
        } else {
            bit_of(r, z)
        }),
{
    let x8 = x as u8;
    let z8 = z as u8;
    assert((r | (1u8 << x8)) < 16 && (r & !(1u8 << x8)) < 16) by (bit_vector)
        requires
            r < 16,
            x8 < 4,
    ;
    assert((((r | (1u8 << x8)) >> z8) & 1 == 1) == (if z8 == x8 {
        true
    } else {
        (r >> z8) & 1 == 1
    }) && (((r & !(1u8 << x8)) >> z8) & 1 == 1) == (if z8 == x8 {
        false
    } else {
        (r >> z8) & 1 == 1
    })) by (bit_vector)
        requires
            x8 < 4,
            z8 < 4,
    ;
}

/// A four-bit value is determined by its four bits.
pub proof fn lemma_bits_determine(r: u8, q: u8)
    requires
        r < 16,
        q < 16,
        forall|x: int| 0 <= x < 4 ==> bit_of(r, x) == bit_of(q, x),
    ensures
        r == q,
{
    assert(bit_of(r, 0) == bit_of(q, 0));
    assert(bit_of(r, 1) == bit_of(q, 1));
    assert(bit_of(r, 2) == bit_of(q, 2));
    assert(bit_of(r, 3) == bit_of(q, 3));
    assert(r == q) by (bit_vector)
        requires
            r < 16,
            q < 16,
            ((r >> 0u8) & 1 == 1) == ((q >> 0u8) & 1 == 1),
            ((r >> 1u8) & 1 == 1) == ((q >> 1u8) & 1 == 1),
            ((r >> 2u8) & 1 == 1) == ((q >> 2u8) & 1 == 1),
            ((r >> 3u8) & 1 == 1) == ((q >> 3u8) & 1 == 1),
    ;
}

} // verus!
